//! The completion index over command names: a byte-free, character-keyed
//! prefix trie with longest-unambiguous-prefix completion.

use vstd::prelude::*;

use crate::completion::WalkOutcome;
use crate::completion::chain_from;
use crate::completion::complete_walk;
use crate::completion::lemma_entry_keys;
use crate::completion::many_children;
use crate::completion::no_child;
use crate::strutil::chars_of;
use crate::strutil::clone_chars;
use crate::strutil::extend_chars;
use crate::strutil::sort_strings;
use crate::strutil::sorted_le;
use crate::strutil::string_of_chars;
use crate::trie_store::TrieStore;
use crate::trie_store::extends_key;
use crate::trie_store::no_trie_entries;
use crate::trie_store::trie_entries;

verus! {

/// What completing a prefix can yield.
#[derive(Debug, PartialEq, Eq)]
pub enum CompletionResponse {
    /// Nothing in the index extends the prefix.
    NoMatch,
    /// One unambiguous way forward: the text to append (prefix excluded) and
    /// whether the completed name is a leaf of the index.
    Single(String, bool),
    /// Several ways forward: every indexed name extending the prefix,
    /// prefix included, in sorted order.
    Multiple(Vec<String>),
}

/// After storing a name, completing any proper prefix of it that no other
/// stored name extends yields the single completion: the rest of the name,
/// which is a leaf of the index.
pub proof fn lemma_complete_unique_prefix(
    m: Map<Seq<char>, Option<Seq<char>>>,
    name: Seq<char>,
    p: Seq<char>,
    r: CompletionResponse,
)
    requires
        m.contains_key(name),
        forall|k: Seq<char>| #[trigger] m.contains_key(k) && p.is_prefix_of(k) ==> k == name,
        p.is_prefix_of(name),
        p.len() < name.len(),
        CommandsTrie::complete_post(m, p, r),
    ensures
        match r {
            CompletionResponse::Single(rest, leaf) => rest@ == name.skip(p.len() as int) && leaf,
            _ => false,
        },
{
    crate::completion::lemma_unique_prefix_chain(m, name, p);
    match r {
        CompletionResponse::NoMatch => {
            assert(false);
        },
        CompletionResponse::Single(rest, _leaf) => {
            let q = p + rest@;
            crate::completion::lemma_stop_unique(m, p, q, name);
            assert(rest@ =~= name.skip(p.len() as int)) by {
                assert(q == name);
                assert forall|j: int| 0 <= j < rest@.len() implies rest@[j] == name.skip(
                    p.len() as int,
                )[j] by {
                    assert((p + rest@)[p.len() + j] == rest@[j]);
                }
            }
        },
        CompletionResponse::Multiple(items) => {
            let q = choose|q: Seq<char>|
                {
                    &&& #[trigger] chain_from(m, p, q)
                    &&& !m.contains_key(q)
                    &&& many_children(m, q)
                    &&& sorted_le(items.deep_view())
                    &&& items.deep_view().no_duplicates()
                    &&& forall|s: Seq<char>|
                        #[trigger] items.deep_view().contains(s) <==> m.contains_key(s)
                            && q.is_prefix_of(s)
                };
            crate::completion::lemma_stop_unique(m, p, q, name);
            assert(false);
        },
    }
}

/// After storing exactly two names extending `p`, which part ways at `d`,
/// completing `p` yields `Multiple`: the sorted, repetition-free candidates
/// are exactly the two names.
pub proof fn lemma_complete_branching_pair(
    m: Map<Seq<char>, Option<Seq<char>>>,
    p: Seq<char>,
    n1: Seq<char>,
    n2: Seq<char>,
    d: Seq<char>,
    r: CompletionResponse,
)
    requires
        m.contains_key(n1),
        m.contains_key(n2),
        forall|k: Seq<char>|
            #[trigger] m.contains_key(k) && p.is_prefix_of(k) ==> k == n1 || k == n2,
        p.is_prefix_of(d),
        d.len() < n1.len(),
        d.len() < n2.len(),
        d == n1.take(d.len() as int),
        d == n2.take(d.len() as int),
        n1[d.len() as int] != n2[d.len() as int],
        CommandsTrie::complete_post(m, p, r),
    ensures
        match r {
            CompletionResponse::Multiple(items) => sorted_le(items.deep_view())
                && items.deep_view().no_duplicates() && forall|s: Seq<char>|
                #[trigger] items.deep_view().contains(s) <==> s == n1 || s == n2,
            _ => false,
        },
{
    crate::completion::lemma_pair_chain(m, p, n1, n2, d);
    assert(p.is_prefix_of(n1)) by {
        assert(d.is_prefix_of(n1));
        assert(p =~= n1.take(p.len() as int));
        assert(n1.take(p.len() as int).is_prefix_of(n1));
    }
    assert(p.is_prefix_of(n2)) by {
        assert(d.is_prefix_of(n2));
        assert(p =~= n2.take(p.len() as int));
        assert(n2.take(p.len() as int).is_prefix_of(n2));
    }
    match r {
        CompletionResponse::NoMatch => {
            reveal(crate::trie_store::extends_key);
            assert(m.contains_key(n1) && p.is_prefix_of(n1));
            assert(false);
        },
        CompletionResponse::Single(rest, _leaf) => {
            let q = p + rest@;
            crate::completion::lemma_stop_unique(m, p, q, d);
            assert(false);
        },
        CompletionResponse::Multiple(items) => {
            let q = choose|q: Seq<char>|
                {
                    &&& #[trigger] chain_from(m, p, q)
                    &&& !m.contains_key(q)
                    &&& many_children(m, q)
                    &&& sorted_le(items.deep_view())
                    &&& items.deep_view().no_duplicates()
                    &&& forall|s: Seq<char>|
                        #[trigger] items.deep_view().contains(s) <==> m.contains_key(s)
                            && q.is_prefix_of(s)
                };
            crate::completion::lemma_stop_unique(m, p, q, d);
            assert(q == d);
            assert(d.is_prefix_of(n1)) by {
                assert(d =~= n1.take(d.len() as int));
                assert(n1.take(d.len() as int).is_prefix_of(n1));
            }
            assert(d.is_prefix_of(n2)) by {
                assert(d =~= n2.take(d.len() as int));
                assert(n2.take(d.len() as int).is_prefix_of(n2));
            }
            assert forall|s: Seq<char>|
                #[trigger] items.deep_view().contains(s) <==> s == n1 || s == n2 by {
                if items.deep_view().contains(s) {
                    assert(m.contains_key(s) && d.is_prefix_of(s));
                    assert(p.is_prefix_of(s)) by {
                        assert(p =~= s.take(p.len() as int));
                        assert(s.take(p.len() as int).is_prefix_of(s));
                    }
                }
            }
        },
    }
}

/// The index of command names used for tab completion.
pub struct CommandsTrie {
    store: TrieStore,
    max_len: usize,
}

impl View for CommandsTrie {
    type V = Map<Seq<char>, Option<Seq<char>>>;

    closed spec fn view(&self) -> Self::V {
        trie_entries(self.store)
    }
}

impl CommandsTrie {
    /// Every stored name fits under the tracked length bound.
    pub closed spec fn wf(self) -> bool {
        forall|k: Seq<char>| #[trigger] self@.contains_key(k) ==> k.len() <= self.max_len
    }

    /// The completion result `r` is what completing `p` against contents `m`
    /// must yield.
    pub open spec fn complete_post(
        m: Map<Seq<char>, Option<Seq<char>>>,
        p: Seq<char>,
        r: CompletionResponse,
    ) -> bool {
        match r {
            CompletionResponse::NoMatch => !extends_key(m, p),
            CompletionResponse::Single(rest, leaf) => {
                let q = p + rest@;
                &&& chain_from(m, p, q)
                &&& m.contains_key(q)
                &&& (leaf <==> no_child(m, q))
            },
            CompletionResponse::Multiple(items) => exists|q: Seq<char>|
                {
                    &&& #[trigger] chain_from(m, p, q)
                    &&& !m.contains_key(q)
                    &&& many_children(m, q)
                    &&& sorted_le(items.deep_view())
                    &&& items.deep_view().no_duplicates()
                    &&& forall|s: Seq<char>|
                        #[trigger] items.deep_view().contains(s) <==> m.contains_key(s)
                            && q.is_prefix_of(s)
                },
        }
    }

    /// An empty index.
    pub fn new() -> (r: CommandsTrie)
        ensures
            r.wf(),
            no_trie_entries(r@),
    {
        CommandsTrie { store: TrieStore::new(), max_len: 0 }
    }

    /// Stores one command name.
    pub fn insert(&mut self, command_name: &str)
        requires
            old(self).wf(),
        ensures
            final(self).wf(),
            final(self)@ == old(self)@.insert(command_name@, None::<Seq<char>>),
    {
        let key = chars_of(command_name);
        if key.len() > self.max_len {
            self.max_len = key.len();
        }
        self.store.insert(&key, None);
        proof {
            assert(None::<String>.deep_view() == None::<Seq<char>>);
            assert forall|k: Seq<char>| #[trigger] self@.contains_key(k) implies k.len()
                <= self.max_len by {
                if k != command_name@ {
                    assert(old(self)@.contains_key(k));
                }
            }
        }
    }

    /// Completes `current` against the stored names.
    #[verifier::loop_isolation(false)]
    pub fn autocomplete(&self, current: &str) -> (r: CompletionResponse)
        requires
            self.wf(),
        ensures
            Self::complete_post(self@, current@, r),
    {
        let ghost m = self@;
        let p = chars_of(current);
        match complete_walk(&self.store, &p, self.max_len) {
            WalkOutcome::NoMatch => CompletionResponse::NoMatch,
            WalkOutcome::Single { rest, leaf, val: _ } => {
                let s = string_of_chars(rest.as_slice());
                CompletionResponse::Single(s, leaf)
            },
            WalkOutcome::Multiple { rest, entries } => {
                let mut q = p;
                extend_chars(&mut q, rest.as_slice());
                let ghost qv = q@;
                let mut items: Vec<String> = Vec::new();
                let mut i: usize = 0;
                while i < entries.len()
                    invariant
                        i <= entries@.len(),
                        q@ == qv,
                        items.deep_view().len() == i,
                        forall|j: int|
                            0 <= j < i ==> #[trigger] items.deep_view()[j] == qv
                                + entries@[j].0@,
                    decreases entries@.len() - i,
                {
                    let mut full = clone_chars(&q);
                    extend_chars(&mut full, entries[i].0.as_slice());
                    let s = string_of_chars(full.as_slice());
                    let ghost pre_items = items@;
                    let ghost pre_dv = items.deep_view();
                    items.push(s);
                    proof {
                        assert(items@ == pre_items.push(s));
                        assert forall|j: int|
                            0 <= j < i + 1 implies #[trigger] items.deep_view()[j] == qv
                            + entries@[j].0@ by {
                            assert(items.deep_view()[j] == items@[j].deep_view());
                            if j < i {
                                assert(items@[j] == pre_items[j]);
                                assert(pre_dv[j] == pre_items[j].deep_view());
                            } else {
                                assert(items@[j] == s);
                                assert(s@ == qv + entries@[i as int].0@);
                            }
                        }
                    }
                    i = i + 1;
                }
                let ghost fulls = items.deep_view();
                let sorted = sort_strings(items);
                proof {
                    let evs = entries@.map_values(
                        |e: (Vec<char>, Option<String>)| crate::completion::entry_view(e),
                    );
                    assert(fulls.len() == evs.len());
                    assert forall|j: int| 0 <= j < fulls.len() implies #[trigger] fulls[j] == qv
                        + evs[j].0 by {
                        assert(evs[j] == crate::completion::entry_view(entries@[j]));
                    }
                    lemma_entry_keys(m, qv, evs, fulls);
                    fulls.lemma_multiset_has_no_duplicates();
                    sorted.deep_view().lemma_multiset_has_no_duplicates_conv();
                    fulls.to_multiset_ensures();
                    sorted.deep_view().to_multiset_ensures();
                    assert forall|s: Seq<char>|
                        #[trigger] sorted.deep_view().contains(s) <==> m.contains_key(s)
                            && qv.is_prefix_of(s) by {
                        assert(sorted.deep_view().to_multiset().count(s)
                            == fulls.to_multiset().count(s));
                        assert(sorted.deep_view().contains(s) <==> fulls.contains(s));
                        assert(fulls.contains(s) <==> m.contains_key(s) && qv.is_prefix_of(s));
                    }
                    assert(chain_from(m, p@, qv));
                }
                CompletionResponse::Multiple(sorted)
            },
        }
    }
}

} // verus!
