//! Looking a prefix up, storing a word and taking one out.

use vstd::prelude::*;
use crate::Trie;
use crate::model::Node;
use crate::lemmas::lemma_position_is;
use crate::laws::{
    law_insert_contains, law_insert_proper, law_insert_well_formed, law_remove_absent,
    law_remove_contains, law_remove_trimmed, law_remove_well_formed,
};
use crate::trie_node::{views, chain};

verus! {

broadcast use Trie::unfold;

/// What taking a word out has done to a node.
enum Removal {
    /// The node is as it was.
    Unchanged,
    /// The node has changed and stays.
    Changed,
    /// Nothing is left of the node: its parent has to drop it.
    Gone,
}

/// The index of the first child whose key is `c`, or the number of children
/// where there is none.
fn position(children: &Vec<Trie>, c: char) -> (p: usize)
    ensures
        p == Node::position(views(children@), c),
        p <= children.len(),
        p < children.len() ==> children@[p as int]@.key == c,
{
    let mut i: usize = 0;
    while i < children.len() && children[i].key != c
        invariant
            i <= children.len(),
            forall|j: int| 0 <= j < i ==> (#[trigger] children@[j]).key != c,
        decreases children.len() - i,
    {
        i += 1;
    }
    proof {
        let nodes = views(children@);
        assert forall|j: int| 0 <= j < i implies (#[trigger] nodes[j]).key != c by {}
        lemma_position_is(nodes, c, i as int);
    }
    i
}

/// The node that `prefix`, read from index `at` on, leads to.
fn trie_get<'a>(trie: &'a Trie, prefix: &Vec<char>, at: usize) -> (r: Option<&'a Trie>)
    requires
        at < prefix.len(),
    ensures
        match r {
            Some(node) => trie@.get(prefix@.skip(at as int)) == Some(node@),
            None => trie@.get(prefix@.skip(at as int)) is None,
        },
    decreases prefix.len() - at,
{
    if prefix[at] != trie.key {
        return None;
    }
    if at + 1 == prefix.len() {
        return Some(trie);
    }
    let p = position(&trie.children, prefix[at + 1]);
    assert(prefix@.skip(at as int).drop_first() =~= prefix@.skip(at + 1));
    if p < trie.children.len() {
        trie_get(&trie.children[p], prefix, at + 1)
    } else {
        None
    }
}

/// The node that `prefix`, read from index `at` on, leads to, for the caller
/// to change.
fn trie_get_mut<'a>(trie: &'a mut Trie, prefix: &Vec<char>, at: usize) -> (r: Option<&'a mut Trie>)
    requires
        at < prefix.len(),
    ensures
        match r {
            Some(node) => {
                &&& old(trie)@.get(prefix@.skip(at as int)) == Some(node@)
                &&& final(trie)@ == old(trie)@.replace(prefix@.skip(at as int), final(node)@)
            },
            None => {
                &&& old(trie)@.get(prefix@.skip(at as int)) is None
                &&& final(trie)@ == old(trie)@
            },
        },
    decreases prefix.len() - at,
{
    if prefix[at] != trie.key {
        return None;
    }
    if at + 1 == prefix.len() {
        return Some(trie);
    }
    let p = position(&trie.children, prefix[at + 1]);
    assert(prefix@.skip(at as int).drop_first() =~= prefix@.skip(at + 1));
    if p < trie.children.len() {
        let ghost before = trie.children@;
        let child = &mut trie.children[p];
        let ghost after = before.update(p as int, *final(child));
        let r = trie_get_mut(child, prefix, at + 1);
        proof {
            assert(views(after) =~= views(before).update(p as int, after[p as int]@));
            if r is None {
                assert(views(after) =~= views(before));
            }
        }
        r
    } else {
        None
    }
}

/// Stores `word`, read from index `at` on, below a node whose key is the
/// character at `at`. Returns whether the word was not stored before.
fn trie_insert(trie: &mut Trie, word: &Vec<char>, at: usize) -> (added: bool)
    requires
        at < word.len(),
        word[at as int] == old(trie)@.key,
    ensures
        final(trie)@ == old(trie)@.insert(word@.skip(at as int)),
        added == !old(trie)@.contains(word@.skip(at as int)),
    decreases word.len() - at,
{
    if at + 1 == word.len() {
        if trie.boundary {
            false
        } else {
            trie.boundary = true;
            true
        }
    } else {
        let p = position(&trie.children, word[at + 1]);
        assert(word@.skip(at as int).drop_first() =~= word@.skip(at + 1));
        let ghost before = trie.children@;
        if p < trie.children.len() {
            let child = &mut trie.children[p];
            let ghost after = before.update(p as int, *final(child));
            let added = trie_insert(child, word, at + 1);
            proof {
                assert(views(after) =~= views(before).update(p as int, after[p as int]@));
            }
            added
        } else {
            let branch = chain(word, at + 1);
            trie.children.push(branch);
            assert(views(trie.children@) =~= views(before).push(branch@));
            true
        }
    }
}

/// Takes `word`, read from index `at` on, out of the subtree of a node whose
/// key is the character at `at`. A node that is `Gone` is left without
/// children, for its parent to drop.
fn trie_remove(trie: &mut Trie, word: &Vec<char>, at: usize) -> (r: Removal)
    requires
        at < word.len(),
        word[at as int] == old(trie)@.key,
    ensures
        final(trie)@.key == old(trie)@.key,
        match old(trie)@.without(word@.skip(at as int)) {
            Some(node) => {
                &&& final(trie)@ == node
                &&& r is Unchanged <==> node == old(trie)@
                &&& r is Changed <==> node != old(trie)@
            },
            None => {
                &&& r is Gone
                &&& final(trie)@.children.len() == 0
            },
        },
    decreases word.len() - at,
{
    if at + 1 == word.len() {
        if trie.children.len() == 0 {
            Removal::Gone
        } else if trie.boundary {
            trie.boundary = false;
            Removal::Changed
        } else {
            Removal::Unchanged
        }
    } else {
        let p = position(&trie.children, word[at + 1]);
        assert(word@.skip(at as int).drop_first() =~= word@.skip(at + 1));
        let ghost before = trie.children@;
        if p < trie.children.len() {
            let child = &mut trie.children[p];
            let ghost after = before.update(p as int, *final(child));
            let below = trie_remove(child, word, at + 1);
            proof {
                assert(views(after) =~= views(before).update(p as int, after[p as int]@));
            }
            match below {
                Removal::Gone => {
                    trie.children.remove(p);
                    assert(views(trie.children@) =~= views(before).remove(p as int));
                    if trie.children.len() == 0 && !trie.boundary {
                        Removal::Gone
                    } else {
                        Removal::Changed
                    }
                },
                Removal::Changed => {
                    Removal::Changed
                },
                Removal::Unchanged => {
                    assert(views(after) =~= views(before));
                    Removal::Unchanged
                },
            }
        } else {
            Removal::Unchanged
        }
    }
}

impl Trie {
    /// The node that `prefix` leads to, whether or not it ends a word, or
    /// `None` where the trie has no such path.
    pub fn get(&self, prefix: Vec<char>) -> (r: Option<&Self>)
        requires
            prefix.len() > 0,
        ensures
            match r {
                Some(node) => self@.get(prefix@) == Some(node@),
                None => self@.get(prefix@) is None,
            },
    {
        assert(prefix@.skip(0) =~= prefix@);
        trie_get(self, &prefix, 0)
    }

    /// The node that `prefix` leads to, for the caller to change in place.
    /// What the caller leaves there takes the place of the node. A key
    /// written through this reference is not held apart from the keys of the
    /// node's siblings: that is for the caller to see to.
    pub fn get_mut(&mut self, prefix: Vec<char>) -> (r: Option<&mut Self>)
        requires
            prefix.len() > 0,
        ensures
            match r {
                Some(node) => {
                    &&& old(self)@.get(prefix@) == Some(node@)
                    &&& final(self)@ == old(self)@.replace(prefix@, final(node)@)
                },
                None => {
                    &&& old(self)@.get(prefix@) is None
                    &&& final(self)@ == old(self)@
                },
            },
    {
        assert(prefix@.skip(0) =~= prefix@);
        trie_get_mut(self, &prefix, 0)
    }

    /// Whether `word` is stored.
    pub fn contains(&self, word: Vec<char>) -> (r: bool)
        requires
            word.len() > 0,
        ensures
            r == self@.contains(word@),
    {
        match self.get(word) {
            Some(node) => node.boundary,
            None => false,
        }
    }

    /// Stores `word`. Returns `None`, and changes nothing, where `word` does
    /// not start with the key of this node; else whether the word was not
    /// stored before.
    pub fn insert(&mut self, word: Vec<char>) -> (r: Option<bool>)
        requires
            word.len() > 0,
        ensures
            final(self)@ == old(self)@.insert(word@),
            r is None <==> word[0] != old(self)@.key,
            r is None ==> final(self)@ == old(self)@,
            r is Some ==> r->0 == !old(self)@.contains(word@),
            r is Some ==> final(self)@.contains(word@),
            final(self)@.key == old(self)@.key,
            old(self)@.well_formed() ==> final(self)@.well_formed(),
            old(self)@.trimmed() ==> final(self)@.trimmed(),
    {
        assert(word@.skip(0) =~= word@);
        proof {
            law_insert_well_formed(self@, word@);
            law_insert_proper(self@, word@);
            if word[0] == self@.key {
                law_insert_contains(self@, word@);
            }
        }
        if word[0] != self.key {
            return None;
        }
        Some(trie_insert(self, &word, 0))
    }

    /// Takes `word` out and prunes the nodes that served it alone; the root
    /// always stays. Returns whether the trie has changed.
    pub fn remove(&mut self, word: Vec<char>) -> (r: bool)
        requires
            word.len() > 0,
        ensures
            final(self)@ == old(self)@.remove(word@),
            r == (final(self)@ != old(self)@),
            !old(self)@.has_path(word@) ==> !r,
            final(self)@.key == old(self)@.key,
            old(self)@.well_formed() ==> final(self)@.well_formed(),
            old(self)@.well_formed() ==> !final(self)@.contains(word@),
            old(self)@.trimmed() ==> final(self)@.trimmed(),
    {
        assert(word@.skip(0) =~= word@);
        proof {
            law_remove_well_formed(self@, word@);
            if !self@.has_path(word@) {
                law_remove_absent(self@, word@);
            }
            if self@.well_formed() {
                law_remove_contains(self@, word@, word@);
            }
            if self@.trimmed() {
                law_remove_trimmed(self@, word@);
            }
        }
        if word[0] != self.key {
            return false;
        }
        let bare = self.children.len() == 0 && !self.boundary;
        match trie_remove(self, &word, 0) {
            Removal::Gone => {
                self.boundary = false;
                assert(self@.children =~= Seq::empty());
                assert(bare ==> old(self)@.children =~= Seq::empty());
                !bare
            },
            Removal::Changed => true,
            Removal::Unchanged => false,
        }
    }
}

} // verus!
