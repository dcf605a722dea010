//! A prefix tree over characters. It holds a set of words, and words that
//! begin alike share the nodes that spell their common beginning.
//!
//! A [`Trie`] is one node and, with the nodes below it, a whole tree. A word
//! is stored where the keys on the path from the root spell it and the last
//! node of that path is a boundary. Every word of a trie begins with the key
//! of its root, so a trie is never empty of nodes: it is made from a first
//! word, and its root stays when the last word is removed.
//!
//! The contracts are stated over [`model::Node`], the tree as a mathematical
//! value, which `trie@` gives. `laws` holds what is proved of the operations
//! taken together.

use vstd::prelude::*;

pub mod model;
pub mod lemmas;
pub mod laws;
pub mod trie_node;
pub mod trie_traversal;
pub mod trie_iter;

verus! {

/// A node of a prefix tree, with the subtree below it.
///
/// The operations of this library keep the keys of siblings distinct
/// (`trie@.well_formed()`). The fields are open to the caller, who can break
/// that; lookups, insertions and removals go by the first child that has the
/// key they look for.
#[derive(Debug)]
pub struct Trie {
    /// The character that this node stands for.
    pub key: char,
    /// Whether the keys from the root down to this node spell a stored word.
    pub boundary: bool,
    /// The nodes below this one, in the order in which they were added.
    pub children: Vec<Trie>,
}

} // verus!
