//! Enumeration of the stored words, one at a time.

use vstd::prelude::*;
use crate::Trie;
use crate::model::Node;
use crate::laws::law_words_len;

verus! {

broadcast use Trie::unfold;

/// One level of the walk: a node that has been visited, and the index of the
/// child that is due next.
struct Level<'a> {
    node: &'a Trie,
    next: usize,
}

/// A walk over the words of a trie, in depth-first order.
pub struct Iter<'a> {
    /// The trie that is walked.
    root: &'a Trie,
    /// Whether the walk has visited the root.
    root_yielded: bool,
    /// The levels from the root down to the node that was visited last.
    iters: Vec<Level<'a>>,
    /// The keys of the nodes of those levels: the path to the last of them.
    acc: Vec<char>,
}

impl<'a> Level<'a> {
    /// The words below the children that this level has not visited yet.
    spec fn rest(self, path: Seq<char>) -> Seq<Seq<char>> {
        Node::words_among(self.node@.children.skip(self.next as int), path)
    }

    /// The number of nodes below this level that are not visited yet.
    spec fn unvisited(self) -> nat {
        Node::size_among(self.node@.children.skip(self.next as int))
    }
}

/// The words that the levels still have to give: those of the innermost
/// level first.
spec fn pending(levels: Seq<Level>, path: Seq<char>) -> Seq<Seq<char>>
    decreases levels.len(),
{
    if levels.len() == 0 {
        Seq::empty()
    } else {
        levels.last().rest(path) + pending(levels.drop_last(), path.drop_last())
    }
}

/// The number of nodes that the levels still have to visit.
spec fn unvisited(levels: Seq<Level>) -> nat
    decreases levels.len(),
{
    if levels.len() == 0 {
        0
    } else {
        levels.last().unvisited() + unvisited(levels.drop_last())
    }
}

impl<'a> Iter<'a> {
    /// The state is consistent: the path has one character for each level,
    /// and no level points behind the children of its node.
    pub closed spec fn wf(&self) -> bool {
        &&& self.iters@.len() == self.acc@.len()
        &&& !self.root_yielded ==> self.iters@.len() == 0
        &&& forall|k: int|
            0 <= k < self.iters@.len() ==> (#[trigger] self.iters@[k]).next
                <= self.iters@[k].node@.children.len()
    }

    /// The trie that is walked.
    pub closed spec fn trie(&self) -> Node {
        self.root@
    }

    /// The words that are still to come, in the order in which `next` will
    /// return them.
    pub closed spec fn remaining(&self) -> Seq<Seq<char>> {
        if self.root_yielded {
            pending(self.iters@, self.acc@)
        } else {
            self.root@.words()
        }
    }

    /// Returns the next word of the walk, or `None` when all have been
    /// returned.
    pub fn next(&mut self) -> (r: Option<Vec<char>>)
        requires
            old(self).wf(),
        ensures
            final(self).wf(),
            final(self).trie() == old(self).trie(),
            match r {
                Some(word) => {
                    &&& old(self).remaining().len() > 0
                    &&& word@ == old(self).remaining()[0]
                    &&& final(self).remaining() == old(self).remaining().drop_first()
                },
                None => {
                    &&& old(self).remaining().len() == 0
                    &&& final(self).remaining().len() == 0
                },
            },
    {
        if !self.root_yielded {
            let root = self.root;
            self.root_yielded = true;
            self.iters.push(Level { node: root, next: 0 });
            self.acc.push(root.key);
            proof {
                let level = self.iters@.last();
                assert(level.node@.children.skip(0) =~= level.node@.children);
                assert(self.acc@ =~= Seq::<char>::empty().push(root.key));
                assert(pending(self.iters@.drop_last(), self.acc@.drop_last()) =~= Seq::<
                    Seq<char>,
                >::empty());
            }
            if root.boundary {
                return Some(self.acc.clone());
            }
        }
        loop
            invariant
                self.wf(),
                self.root_yielded,
                self.root == old(self).root,
                self.remaining() == old(self).remaining(),
            decreases unvisited(self.iters@), self.iters@.len(),
        {
            let depth = self.iters.len();
            if depth == 0 {
                return None;
            }
            let node = self.iters[depth - 1].node;
            let next = self.iters[depth - 1].next;
            let ghost levels = self.iters@;
            let ghost path = self.acc@;
            if next < node.children.len() {
                let child = &node.children[next];
                self.iters[depth - 1].next = next + 1;
                self.iters.push(Level { node: child, next: 0 });
                self.acc.push(child.key);
                proof {
                    let siblings = node@.children.skip(next as int);
                    assert(siblings.drop_first() =~= node@.children.skip(next + 1));
                    assert(child@.children.skip(0) =~= child@.children);
                    let below = levels.drop_last();
                    let moved = self.iters@.drop_last();
                    assert(moved.drop_last() =~= below);
                    assert(self.acc@.drop_last() =~= path);
                    // what was to come: the words of the child, of its later
                    // siblings, and of the levels below
                    assert(pending(levels, path) == child@.words_under(path) + Node::words_among(
                        node@.children.skip(next + 1),
                        path,
                    ) + pending(below, path.drop_last()));
                    // what is to come now: all of that but the child's own word
                    assert(pending(self.iters@, self.acc@) == Node::words_among(
                        child@.children,
                        self.acc@,
                    ) + pending(moved, path));
                    // the child is the one node that is no longer to visit
                    assert(unvisited(levels) == child@.size() + Node::size_among(
                        node@.children.skip(next + 1),
                    ) + unvisited(below));
                    assert(unvisited(self.iters@) == Node::size_among(child@.children) + unvisited(
                        moved,
                    ));
                }
                if child.boundary {
                    return Some(self.acc.clone());
                }
            } else {
                self.iters.pop();
                self.acc.pop();
            }
        }
    }
}

impl<'a> Iter<'a> {
    /// Runs the walk to its end and returns the words that were still to
    /// come, in their order.
    pub fn collect(self) -> (words: Vec<Vec<char>>)
        requires
            self.wf(),
        ensures
            words@.len() == self.remaining().len(),
            forall|i: int| 0 <= i < words@.len() ==> (#[trigger] words@[i])@ == self.remaining()[i],
    {
        let ghost all = self.remaining();
        let mut walk = self;
        let mut words: Vec<Vec<char>> = Vec::new();
        loop
            invariant
                walk.wf(),
                all == self.remaining(),
                words@.len() <= all.len(),
                walk.remaining() == all.skip(words@.len() as int),
                forall|i: int| 0 <= i < words@.len() ==> (#[trigger] words@[i])@ == all[i],
            decreases walk.remaining().len(),
        {
            match walk.next() {
                Some(word) => {
                    words.push(word);
                },
                None => {
                    return words;
                },
            }
        }
    }
}

impl Trie {
    /// Starts a walk over the words of this trie.
    pub fn iter(&self) -> (it: Iter<'_>)
        ensures
            it.wf(),
            it.trie() == self@,
            it.remaining() == self@.words(),
            it.remaining().len() == self@.marks(),
    {
        proof {
            law_words_len(self@);
        }
        Iter { root: self, root_yielded: false, iters: Vec::new(), acc: Vec::new() }
    }
}

} // verus!
