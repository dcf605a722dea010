//! Building a trie, reading a node, counting nodes, and equality.

use vstd::prelude::*;
use vstd::std_specs::cmp::PartialEqSpecImpl;
use crate::Trie;
use crate::model::Node;
use crate::laws::{law_chain_contains, law_chain_proper};
use crate::lemmas::lemma_chain_well_formed;

verus! {

/// The models of a sequence of tries, one for one.
pub open spec fn views(tries: Seq<Trie>) -> Seq<Node> {
    Seq::new(tries.len(), |i: int| tries[i]@)
}

impl View for Trie {
    type V = Node;

    open spec fn view(&self) -> Node {
        self.model()
    }
}

impl Trie {
    /// The model of this trie: the same tree, with sequences for vectors.
    pub closed spec fn model(self) -> Node
        decreases self,
    {
        Node {
            key: self.key,
            boundary: self.boundary,
            children: Seq::new(
                self.children@.len(),
                |i: int|
                    if 0 <= i < self.children@.len() {
                        self.children@[i].model()
                    } else {
                        arbitrary()
                    },
            ),
        }
    }

    /// The model, one level unfolded.
    pub broadcast proof fn unfold(self)
        ensures
            #[trigger] self.model() == (Node {
                key: self.key,
                boundary: self.boundary,
                children: views(self.children@),
            }),
    {
        assert(self.model().children =~= views(self.children@));
    }

    /// A node with the given key that ends a word and has no children.
    pub fn empty(c: char) -> (r: Self)
        ensures
            r@ == Node::leaf(c),
            r@.well_formed(),
            r@.proper(),
    {
        let r = Trie { key: c, boundary: true, children: Vec::new() };
        assert(r@.children =~= Seq::empty());
        r
    }

    /// The chain of nodes that spells `word`, one node for each character.
    pub fn from_word(word: Vec<char>) -> (r: Self)
        requires
            word.len() > 0,
        ensures
            r@ == Node::chain(word@),
            r@.contains(word@),
            r@.well_formed(),
            r@.proper(),
    {
        assert(word@.skip(0) =~= word@);
        proof {
            law_chain_proper(word@);
            law_chain_contains(word@);
            lemma_chain_well_formed(word@);
        }
        chain(&word, 0)
    }

    /// The key of this node.
    pub fn value(&self) -> (r: &char)
        ensures
            *r == self@.key,
    {
        &self.key
    }

    /// The key of this node, to be changed in place. Nothing holds the new key
    /// apart from those of the siblings of this node: that is for the caller
    /// to see to.
    pub fn value_mut(&mut self) -> (r: &mut char)
        ensures
            *r == old(self)@.key,
            final(self)@ == (Node { key: *final(r), ..old(self)@ }),
    {
        &mut self.key
    }

    /// Whether the path down to this node spells a stored word.
    pub fn is_boundary(&self) -> (r: bool)
        ensures
            r == self@.boundary,
    {
        self.boundary
    }

    /// The number of nodes of this trie: the characters stored, each shared
    /// prefix counted once.
    pub fn compute_size(&self) -> (r: usize)
        requires
            self@.size() <= usize::MAX,
        ensures
            r == self@.size(),
        decreases self,
    {
        let mut size: usize = 1;
        let mut i: usize = 0;
        let ghost nodes = self@.children;
        assert(nodes.skip(0) =~= nodes);
        while i < self.children.len()
            invariant
                i <= self.children.len(),
                nodes == views(self.children@),
                size + Node::size_among(nodes.skip(i as int)) == self@.size(),
                self@.size() <= usize::MAX,
            decreases self.children.len() - i,
        {
            let child = &self.children[i];
            assert(nodes.skip(i as int).drop_first() =~= nodes.skip(i + 1));
            size += child.compute_size();
            i += 1;
        }
        size
    }

    /// Whether the two tries are the same tree.
    pub fn same(&self, other: &Trie) -> (r: bool)
        ensures
            r == (self@ == other@),
        decreases self,
    {
        if self.key != other.key || self.boundary != other.boundary || self.children.len()
            != other.children.len() {
            assert(other@.children.len() == other.children@.len());
            return false;
        }
        let mut i: usize = 0;
        while i < self.children.len()
            invariant
                i <= self.children.len(),
                self.children.len() == other.children.len(),
                forall|j: int|
                    0 <= j < i ==> (#[trigger] self.children@[j])@ == other.children@[j]@,
            decreases self.children.len() - i,
        {
            if !self.children[i].same(&other.children[i]) {
                assert(self@.children[i as int] != other@.children[i as int]);
                return false;
            }
            i += 1;
        }
        assert(self@.children =~= other@.children);
        true
    }
}

/// The chain of nodes that spells `word` from index `at` on.
pub(crate) fn chain(word: &Vec<char>, at: usize) -> (r: Trie)
    requires
        at < word.len(),
    ensures
        r@ == Node::chain(word@.skip(at as int)),
{
    let mut i: usize = word.len() - 1;
    let mut trie = Trie::empty(word[i]);
    while i > at
        invariant
            at <= i < word.len(),
            trie@ == Node::chain(word@.skip(i as int)),
        decreases i,
    {
        i -= 1;
        let mut children: Vec<Trie> = Vec::new();
        children.push(trie);
        proof {
            assert(word@.skip(i as int).drop_first() =~= word@.skip(i + 1));
            assert(views(children@) =~= seq![trie@]);
        }
        trie = Trie { key: word[i], boundary: false, children };
        proof {
            trie.unfold();
        }
    }
    trie
}

impl PartialEq for Trie {
    fn eq(&self, other: &Self) -> (r: bool) {
        self.same(other)
    }
}

impl PartialEqSpecImpl for Trie {
    open spec fn obeys_eq_spec() -> bool {
        true
    }

    open spec fn eq_spec(&self, other: &Self) -> bool {
        self@ == other@
    }
}

} // verus!
