//! Trusted boundary around `sequence_trie::SequenceTrie`, the outside
//! prefix-tree that backs command completion.
//!
//! The trie is keyed by `char` and carries an optional completion-suffix
//! annotation on each inserted name. `TrieStore` holds the outside value;
//! its abstract contents are named by `trie_entries`: the map from every
//! inserted key to its annotation.
//!
//! The contracts about node structure rest on the crate's documented
//! invariant: every leaf node carries a value, and nodes exist exactly along
//! the paths of inserted keys (insertion creates them, removal prunes them).
//! Hence a node lies at a non-empty path exactly when some inserted key has
//! that path as a prefix, and the root is always present.

use vstd::prelude::*;

use sequence_trie::SequenceTrie;

verus! {

/// Holds the outside trie; opaque to the verifier, described only through
/// `trie_entries` and the trusted operations below.
#[verifier::external_body]
pub struct TrieStore {
    trie: SequenceTrie<char, Option<String>>,
}

/// The inserted keys of the trie, each mapped to its optional annotation.
pub uninterp spec fn trie_entries(t: TrieStore) -> Map<Seq<char>, Option<Seq<char>>>;

/// Some inserted key has `q` as a (not necessarily strict) prefix; opaque so
/// that reasoning opens the existential only where a proof asks for it.
#[verifier::opaque]
pub open spec fn extends_key(m: Map<Seq<char>, Option<Seq<char>>>, q: Seq<char>) -> bool {
    exists|k: Seq<char>| #[trigger] m.contains_key(k) && q.is_prefix_of(k)
}

/// A trie-contents map that holds no keys at all.
pub open spec fn no_trie_entries(m: Map<Seq<char>, Option<Seq<char>>>) -> bool {
    m =~= Map::<Seq<char>, Option<Seq<char>>>::empty()
}

impl TrieStore {
    /// Relies on `SequenceTrie::new`: a fresh trie holds no keys.
    #[verifier::external_body]
    pub(crate) fn new() -> (r: TrieStore)
        ensures
            no_trie_entries(trie_entries(r)),
    {
        TrieStore { trie: SequenceTrie::new() }
    }

    /// Relies on `SequenceTrie::insert`: stores the value under the key,
    /// replacing any previous value and touching no other key.
    #[verifier::external_body]
    pub(crate) fn insert(&mut self, key: &Vec<char>, val: Option<String>)
        ensures
            trie_entries(*final(self)) == trie_entries(*old(self)).insert(
                key@,
                val.deep_view(),
            ),
    {
        self.trie.insert(key, val);
    }

    /// Relies on `SequenceTrie::get`: the value stored under the key, if any.
    #[verifier::external_body]
    pub(crate) fn value_at(&self, path: &Vec<char>) -> (r: Option<Option<String>>)
        ensures
            match r {
                Some(v) => trie_entries(*self).contains_key(path@) && trie_entries(*self)[path@]
                    == v.deep_view(),
                None => !trie_entries(*self).contains_key(path@),
            },
    {
        self.trie.get(path).cloned()
    }

    /// Relies on `SequenceTrie::get_node` and `children_with_keys`: the edge
    /// labels leaving the node at `path`, in arbitrary order. A child labelled
    /// `c` exists exactly when some inserted key strictly extends `path` by
    /// `c`, because every leaf node of the trie carries an inserted key.
    #[verifier::external_body]
    pub(crate) fn child_chars(&self, path: &Vec<char>) -> (r: Vec<char>)
        ensures
            forall|i: int|
                forall|j: int| 0 <= i < j < r@.len() ==> #[trigger] r@[i] != #[trigger] r@[j],
            forall|c: char|
                #[trigger] r@.contains(c) ==> extends_key(trie_entries(*self), path@.push(c)),
            forall|k: Seq<char>|
                #[trigger] trie_entries(*self).contains_key(k) && k.len() > path@.len()
                    && path@.is_prefix_of(k) ==> r@.contains(k[path@.len() as int]),
    {
        match self.trie.get_node(path) {
            None => Vec::new(),
            Some(node) => node.children_with_keys().into_iter().map(|(c, _)| *c).collect(),
        }
    }

    /// Relies on `SequenceTrie::get_node` and `iter`: every inserted key that
    /// extends `path`, given as the part beyond `path` paired with its
    /// annotation, in arbitrary order and without repetition.
    #[verifier::external_body]
    pub(crate) fn entries_under(&self, path: &Vec<char>) -> (r: Vec<(Vec<char>, Option<String>)>)
        ensures
            forall|i: int|
                forall|j: int|
                    0 <= i < j < r@.len() ==> (#[trigger] r@[i]).0@ != (#[trigger] r@[j]).0@,
            forall|i: int|
                0 <= i < r@.len() ==> trie_entries(*self).contains_key(path@ + (#[trigger] r@[i]).0@)
                    && trie_entries(*self)[path@ + r@[i].0@] == r@[i].1.deep_view(),
            forall|k: Seq<char>|
                #[trigger] trie_entries(*self).contains_key(k) && path@.is_prefix_of(k)
                    ==> exists|i: int| 0 <= i < r@.len() && (#[trigger] r@[i]).0@ == k.skip(
                        path@.len() as int,
                    ),
    {
        let mut out: Vec<(Vec<char>, Option<String>)> = Vec::new();
        if let Some(node) = self.trie.get_node(path) {
            for (suffix, val) in node.iter() {
                out.push((suffix.into_iter().copied().collect(), val.clone()));
            }
        }
        out
    }
}

} // verus!
