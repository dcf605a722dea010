//! The mathematical model of a prefix tree: a ghost tree of nodes, and the
//! functions on it that the contracts of the executable code are stated over.

use vstd::prelude::*;

verus! {

/// A node of the model: one character, a flag that says whether the path from
/// the root down to this node spells a stored word, and the children in the
/// order in which they were added.
pub ghost struct Node {
    pub key: char,
    pub boundary: bool,
    pub children: Seq<Node>,
}

impl Node {
    /// A node that ends a word and has no children.
    pub open spec fn leaf(key: char) -> Node {
        Node { key, boundary: true, children: Seq::empty() }
    }

    /// The chain of nodes that spells `word`: one node per character, only the
    /// last one a boundary.
    pub open spec fn chain(word: Seq<char>) -> Node
        recommends
            word.len() > 0,
        decreases word.len(),
    {
        if word.len() <= 1 {
            Node::leaf(word[0])
        } else {
            Node { key: word[0], boundary: false, children: seq![Node::chain(word.drop_first())] }
        }
    }

    /// The index of the first of `nodes` whose key is `c`, or `nodes.len()`
    /// where no node has that key.
    pub open spec fn position(nodes: Seq<Node>, c: char) -> int
        decreases nodes.len(),
    {
        if nodes.len() == 0 {
            0
        } else if nodes[0].key == c {
            0
        } else {
            1 + Node::position(nodes.drop_first(), c)
        }
    }

    /// The node that `prefix` leads to. The first character of `prefix` has to
    /// be the key of this node; each further character selects the first child
    /// with that key.
    pub open spec fn get(self, prefix: Seq<char>) -> Option<Node>
        decreases prefix.len(),
    {
        if prefix.len() == 0 || prefix[0] != self.key {
            None
        } else if prefix.len() == 1 {
            Some(self)
        } else {
            let p = Node::position(self.children, prefix[1]);
            if 0 <= p < self.children.len() {
                self.children[p].get(prefix.drop_first())
            } else {
                None
            }
        }
    }

    /// Whether the tree has a node at the end of `path`.
    pub open spec fn has_path(self, path: Seq<char>) -> bool {
        self.get(path) is Some
    }

    /// Whether `word` is stored: its path exists and ends at a boundary.
    pub open spec fn contains(self, word: Seq<char>) -> bool {
        match self.get(word) {
            Some(node) => node.boundary,
            None => false,
        }
    }

    /// This tree with the node that `path` leads to replaced by `sub`;
    /// unchanged where `path` leads nowhere.
    pub open spec fn replace(self, path: Seq<char>, sub: Node) -> Node
        decreases path.len(),
    {
        if path.len() == 0 || path[0] != self.key {
            self
        } else if path.len() == 1 {
            sub
        } else {
            let p = Node::position(self.children, path[1]);
            if 0 <= p < self.children.len() {
                Node {
                    children: self.children.update(
                        p,
                        self.children[p].replace(path.drop_first(), sub),
                    ),
                    ..self
                }
            } else {
                self
            }
        }
    }

    /// This tree with `word` stored in it; unchanged where `word` does not
    /// start with the key of this node. A branch that is missing is appended
    /// behind the children that are there.
    pub open spec fn insert(self, word: Seq<char>) -> Node
        decreases word.len(),
    {
        if word.len() == 0 || word[0] != self.key {
            self
        } else if word.len() == 1 {
            Node { boundary: true, ..self }
        } else {
            let p = Node::position(self.children, word[1]);
            if 0 <= p < self.children.len() {
                Node {
                    children: self.children.update(p, self.children[p].insert(word.drop_first())),
                    ..self
                }
            } else {
                Node { children: self.children.push(Node::chain(word.drop_first())), ..self }
            }
        }
    }

    /// What is left of this node after `word` is taken out, or `None` where
    /// nothing is left and the parent has to drop the node. A node at the end
    /// of `word` that has children only loses its flag; one without children
    /// goes, and so does each node above it that is left without children and
    /// ends no word itself.
    pub open spec fn without(self, word: Seq<char>) -> Option<Node>
        decreases word.len(),
    {
        if word.len() == 0 || word[0] != self.key {
            Some(self)
        } else if word.len() == 1 {
            if self.children.len() == 0 {
                None
            } else {
                Some(Node { boundary: false, ..self })
            }
        } else {
            let p = Node::position(self.children, word[1]);
            if 0 <= p < self.children.len() {
                match self.children[p].without(word.drop_first()) {
                    Some(child) => Some(Node { children: self.children.update(p, child), ..self }),
                    None => {
                        let rest = self.children.remove(p);
                        if rest.len() == 0 && !self.boundary {
                            None
                        } else {
                            Some(Node { children: rest, ..self })
                        }
                    },
                }
            } else {
                Some(self)
            }
        }
    }

    /// The root with no word below it: what stays when everything is pruned.
    pub open spec fn bare(self) -> Node {
        Node { key: self.key, boundary: false, children: Seq::empty() }
    }

    /// This tree, as a root, with `word` removed. The root itself always stays.
    pub open spec fn remove(self, word: Seq<char>) -> Node {
        match self.without(word) {
            Some(node) => node,
            None => self.bare(),
        }
    }

    /// This tree with the flag of the node at `word` cleared and nothing else
    /// changed.
    pub open spec fn unmark(self, word: Seq<char>) -> Node {
        match self.get(word) {
            Some(node) => self.replace(word, Node { boundary: false, ..node }),
            None => self,
        }
    }

    /// The trie that holds `words`: the chain of the first, with the others
    /// stored in it one after another.
    pub open spec fn build(words: Seq<Seq<char>>) -> Node
        recommends
            Node::same_start(words),
        decreases words.len(),
    {
        if words.len() <= 1 {
            Node::chain(words[0])
        } else {
            Node::build(words.drop_last()).insert(words.last())
        }
    }

    /// The words can stand in one trie: there is one at least, none is
    /// empty, and all start with the same character.
    pub open spec fn same_start(words: Seq<Seq<char>>) -> bool {
        &&& words.len() > 0
        &&& forall|i: int|
            0 <= i < words.len() ==> (#[trigger] words[i]).len() > 0 && words[i][0] == words[0][0]
    }

    /// The lengths of `words`, added up.
    pub open spec fn total_len(words: Seq<Seq<char>>) -> nat
        decreases words.len(),
    {
        if words.len() == 0 {
            0
        } else {
            Node::total_len(words.drop_last()) + words.last().len()
        }
    }

    /// How many characters of `word`, from its start, the tree already has
    /// nodes for.
    pub open spec fn shared(self, word: Seq<char>) -> nat
        decreases word.len(),
    {
        if word.len() == 0 || word[0] != self.key {
            0
        } else if word.len() == 1 {
            1
        } else {
            let p = Node::position(self.children, word[1]);
            if 0 <= p < self.children.len() {
                1 + self.children[p].shared(word.drop_first())
            } else {
                1
            }
        }
    }

    /// The number of nodes of this tree.
    pub open spec fn size(self) -> nat
        decreases self,
    {
        1 + Node::size_among(self.children)
    }

    /// The number of nodes of the trees in `nodes`.
    pub open spec fn size_among(nodes: Seq<Node>) -> nat
        decreases nodes,
    {
        if nodes.len() == 0 {
            0
        } else {
            nodes[0].size() + Node::size_among(nodes.drop_first())
        }
    }

    /// The stored words, in the order of a depth-first walk that visits a node
    /// before its children and the children in their stored order.
    pub open spec fn words(self) -> Seq<Seq<char>> {
        self.words_under(Seq::empty())
    }

    /// The words of this subtree, each spelled out from the root, where `path`
    /// is what the nodes above this one spell.
    pub open spec fn words_under(self, path: Seq<char>) -> Seq<Seq<char>>
        decreases self,
    {
        let here = path.push(self.key);
        if self.boundary {
            seq![here] + Node::words_among(self.children, here)
        } else {
            Node::words_among(self.children, here)
        }
    }

    /// The words of the subtrees `nodes`, one after another, below `path`.
    pub open spec fn words_among(nodes: Seq<Node>, path: Seq<char>) -> Seq<Seq<char>>
        decreases nodes,
    {
        if nodes.len() == 0 {
            Seq::empty()
        } else {
            nodes[0].words_under(path) + Node::words_among(nodes.drop_first(), path)
        }
    }

    /// The test that every word but `word` passes.
    pub open spec fn other_than(word: Seq<char>) -> spec_fn(Seq<char>) -> bool {
        |x: Seq<char>| x != word
    }

    /// The number of nodes of this tree that end a word.
    pub open spec fn marks(self) -> nat
        decreases self,
    {
        if self.boundary {
            1 + Node::marks_among(self.children)
        } else {
            Node::marks_among(self.children)
        }
    }

    /// The number of nodes of the trees in `nodes` that end a word.
    pub open spec fn marks_among(nodes: Seq<Node>) -> nat
        decreases nodes,
    {
        if nodes.len() == 0 {
            0
        } else {
            nodes[0].marks() + Node::marks_among(nodes.drop_first())
        }
    }

    /// A word of this tree, where every node without children ends one: the
    /// keys down the first children, as far as the first boundary.
    pub open spec fn first_word(self) -> Seq<char>
        decreases self,
    {
        if self.boundary || self.children.len() == 0 {
            seq![self.key]
        } else {
            seq![self.key] + self.children[0].first_word()
        }
    }

    /// Every node of this tree that has no children ends a word.
    pub open spec fn proper(self) -> bool
        decreases self,
    {
        &&& self.children.len() == 0 ==> self.boundary
        &&& forall|i: int| 0 <= i < self.children.len() ==> (#[trigger] self.children[i]).proper()
    }

    /// Below the root, every node that has no children ends a word: no
    /// branch is left that spells no word.
    pub open spec fn trimmed(self) -> bool {
        forall|i: int| 0 <= i < self.children.len() ==> (#[trigger] self.children[i]).proper()
    }

    /// No two of `nodes` have the same key.
    pub open spec fn distinct_keys(nodes: Seq<Node>) -> bool {
        forall|i: int, j: int|
            0 <= i < j < nodes.len() ==> (#[trigger] nodes[i]).key != (#[trigger] nodes[j]).key
    }

    /// Throughout the tree, no two siblings have the same key.
    pub open spec fn well_formed(self) -> bool
        decreases self,
    {
        &&& Node::distinct_keys(self.children)
        &&& forall|i: int|
            0 <= i < self.children.len() ==> (#[trigger] self.children[i]).well_formed()
    }
}

} // verus!
