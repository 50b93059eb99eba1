//! The completion index with per-name suffix annotations: each inserted name
//! may carry a string that is appended after the name completes (for
//! executables, a trailing space).

use vstd::multiset::Multiset;
use vstd::prelude::*;
use vstd::string::StrSliceExecFns;
use vstd::string::StringExecFns;

use crate::completion::WalkOutcome;
use crate::completion::annot;
use crate::completion::chain_from;
use crate::completion::complete_walk;
use crate::completion::lemma_entry_keys;
use crate::completion::many_children;
use crate::completion::no_child;
use crate::strutil::chars_of;
use crate::strutil::clone_chars;
use crate::strutil::extend_chars;
use crate::strutil::sort_strings;
use crate::strutil::sorted_le;
use crate::strutil::string_of_chars;
use crate::trie_store::TrieStore;
use crate::trie_store::extends_key;
use crate::trie_store::no_trie_entries;
use crate::trie_store::trie_entries;

verus! {

/// What completing a prefix can yield.
#[derive(Debug, PartialEq, Eq)]
pub enum CompletionResponse {
    /// Nothing in the index extends the prefix.
    NoMatch,
    /// One unambiguous way forward: the text to append (prefix excluded) and
    /// the completed name's annotation — the annotation itself when the name
    /// is a leaf, an empty one when more completions branch below it.
    Single(String, Option<String>),
    /// Several ways forward: every indexed name extending the prefix, prefix
    /// included and annotation appended, in sorted order.
    Multiple(Vec<String>),
}

/// After storing a name, completing any proper prefix of it that no other
/// stored name extends yields the single completion: the rest of the name,
/// with exactly the stored annotation (the name being a leaf).
pub proof fn lemma_complete_unique_prefix(
    m: Map<Seq<char>, Option<Seq<char>>>,
    name: Seq<char>,
    p: Seq<char>,
    r: CompletionResponse,
)
    requires
        m.contains_key(name),
        forall|k: Seq<char>| #[trigger] m.contains_key(k) && p.is_prefix_of(k) ==> k == name,
        p.is_prefix_of(name),
        p.len() < name.len(),
        Autocompleter::complete_post(m, p, r),
    ensures
        match r {
            CompletionResponse::Single(rest, suffix) => rest@ == name.skip(p.len() as int)
                && suffix.deep_view() == m[name],
            _ => false,
        },
{
    crate::completion::lemma_unique_prefix_chain(m, name, p);
    match r {
        CompletionResponse::NoMatch => {
            assert(false);
        },
        CompletionResponse::Single(rest, suffix) => {
            let q = p + rest@;
            crate::completion::lemma_stop_unique(m, p, q, name);
            assert(rest@ =~= name.skip(p.len() as int)) by {
                assert(q == name);
                assert forall|j: int| 0 <= j < rest@.len() implies rest@[j] == name.skip(
                    p.len() as int,
                )[j] by {
                    assert((p + rest@)[p.len() + j] == rest@[j]);
                }
            }
        },
        CompletionResponse::Multiple(items) => {
            let q = choose|q: Seq<char>|
                {
                    &&& #[trigger] chain_from(m, p, q)
                    &&& !m.contains_key(q)
                    &&& many_children(m, q)
                    &&& sorted_le(items.deep_view())
                    &&& exists|ks: Seq<Seq<char>>|
                        {
                            &&& #[trigger] ks.no_duplicates()
                            &&& forall|k: Seq<char>|
                                #[trigger] ks.contains(k) <==> m.contains_key(k)
                                    && q.is_prefix_of(k)
                            &&& items.deep_view().to_multiset() == ks.map_values(
                                |k: Seq<char>| k + annot(m, k),
                            ).to_multiset()
                        }
                };
            crate::completion::lemma_stop_unique(m, p, q, name);
            assert(false);
        },
    }
}

/// After storing exactly two names extending `p`, which part ways at `d`,
/// completing `p` yields `Multiple`: the sorted candidates are the two
/// names, each with its annotation appended.
pub proof fn lemma_complete_branching_pair(
    m: Map<Seq<char>, Option<Seq<char>>>,
    p: Seq<char>,
    n1: Seq<char>,
    n2: Seq<char>,
    d: Seq<char>,
    r: CompletionResponse,
)
    requires
        m.contains_key(n1),
        m.contains_key(n2),
        forall|k: Seq<char>|
            #[trigger] m.contains_key(k) && p.is_prefix_of(k) ==> k == n1 || k == n2,
        p.is_prefix_of(d),
        d.len() < n1.len(),
        d.len() < n2.len(),
        d == n1.take(d.len() as int),
        d == n2.take(d.len() as int),
        n1[d.len() as int] != n2[d.len() as int],
        Autocompleter::complete_post(m, p, r),
    ensures
        match r {
            CompletionResponse::Multiple(items) => sorted_le(items.deep_view())
                && items.deep_view().to_multiset() == Multiset::empty().insert(
                n1 + annot(m, n1),
            ).insert(n2 + annot(m, n2)),
            _ => false,
        },
{
    broadcast use vstd::multiset::group_multiset_axioms;

    crate::completion::lemma_pair_chain(m, p, n1, n2, d);
    assert(n1 != n2) by {
        assert(n1[d.len() as int] != n2[d.len() as int]);
    }
    assert(p.is_prefix_of(n1)) by {
        assert(d.is_prefix_of(n1));
        assert(p =~= n1.take(p.len() as int));
        assert(n1.take(p.len() as int).is_prefix_of(n1));
    }
    assert(p.is_prefix_of(n2)) by {
        assert(d.is_prefix_of(n2));
        assert(p =~= n2.take(p.len() as int));
        assert(n2.take(p.len() as int).is_prefix_of(n2));
    }
    match r {
        CompletionResponse::NoMatch => {
            reveal(extends_key);
            assert(m.contains_key(n1) && p.is_prefix_of(n1));
            assert(false);
        },
        CompletionResponse::Single(rest, _suffix) => {
            let q = p + rest@;
            crate::completion::lemma_stop_unique(m, p, q, d);
            assert(false);
        },
        CompletionResponse::Multiple(items) => {
            let q = choose|q: Seq<char>|
                {
                    &&& #[trigger] chain_from(m, p, q)
                    &&& !m.contains_key(q)
                    &&& many_children(m, q)
                    &&& sorted_le(items.deep_view())
                    &&& exists|ks: Seq<Seq<char>>|
                        {
                            &&& #[trigger] ks.no_duplicates()
                            &&& forall|k: Seq<char>|
                                #[trigger] ks.contains(k) <==> m.contains_key(k)
                                    && q.is_prefix_of(k)
                            &&& items.deep_view().to_multiset() == ks.map_values(
                                |k: Seq<char>| k + annot(m, k),
                            ).to_multiset()
                        }
                };
            crate::completion::lemma_stop_unique(m, p, q, d);
            assert(q == d);
            let ks = choose|ks: Seq<Seq<char>>|
                {
                    &&& #[trigger] ks.no_duplicates()
                    &&& forall|k: Seq<char>|
                        #[trigger] ks.contains(k) <==> m.contains_key(k) && q.is_prefix_of(k)
                    &&& items.deep_view().to_multiset() == ks.map_values(
                        |k: Seq<char>| k + annot(m, k),
                    ).to_multiset()
                };
            assert(d.is_prefix_of(n1)) by {
                assert(d =~= n1.take(d.len() as int));
                assert(n1.take(d.len() as int).is_prefix_of(n1));
            }
            assert(d.is_prefix_of(n2)) by {
                assert(d =~= n2.take(d.len() as int));
                assert(n2.take(d.len() as int).is_prefix_of(n2));
            }
            assert(ks.contains(n1));
            assert(ks.contains(n2));
            assert forall|x: Seq<char>| #[trigger] ks.contains(x) implies x == n1 || x == n2 by {
                assert(m.contains_key(x) && d.is_prefix_of(x));
                assert(p.is_prefix_of(x)) by {
                    assert(p =~= x.take(p.len() as int));
                    assert(x.take(p.len() as int).is_prefix_of(x));
                }
            }
            let i1 = choose|i: int| 0 <= i < ks.len() && ks[i] == n1;
            let i2 = choose|i: int| 0 <= i < ks.len() && ks[i] == n2;
            assert(i1 != i2);
            assert(ks.len() >= 2);
            assert(ks.len() <= 2) by {
                if ks.len() > 2 {
                    assert(ks.contains(ks[0]));
                    assert(ks.contains(ks[1]));
                    assert(ks.contains(ks[2]));
                    assert(ks[0] == n1 || ks[0] == n2);
                    assert(ks[1] == n1 || ks[1] == n2);
                    assert(ks[2] == n1 || ks[2] == n2);
                    assert(false);
                }
            }
            let f = |k: Seq<char>| k + annot(m, k);
            let mapped = ks.map_values(f);
            assert(mapped.len() == 2);
            assert(mapped =~= Seq::empty().push(mapped[0]).push(mapped[1]));
            Seq::<Seq<char>>::empty().push(mapped[0]).to_multiset_ensures();
            Seq::<Seq<char>>::empty().to_multiset_ensures();
            vstd::multiset::lemma_multiset_empty_len(
                Seq::<Seq<char>>::empty().to_multiset(),
            );
            assert(Seq::<Seq<char>>::empty().to_multiset() =~= Multiset::empty());
            assert(mapped.to_multiset() =~= Multiset::empty().insert(mapped[0]).insert(mapped[1]))
                by {
                assert(Seq::empty().push(mapped[0]).to_multiset() =~= Multiset::empty().insert(
                    mapped[0],
                ));
                assert(Seq::empty().push(mapped[0]).push(mapped[1]).to_multiset()
                    =~= Seq::empty().push(mapped[0]).to_multiset().insert(mapped[1]));
            }
            if ks[0] == n1 {
                assert(ks[1] == n2) by {
                    assert(ks[i2] == n2);
                }
                assert(mapped[0] == f(n1) && mapped[1] == f(n2));
                assert(items.deep_view().to_multiset() =~= Multiset::empty().insert(
                    n1 + annot(m, n1),
                ).insert(n2 + annot(m, n2)));
            } else {
                assert(ks[0] == n2);
                assert(ks[1] == n1) by {
                    assert(ks[i1] == n1);
                }
                assert(mapped[0] == f(n2) && mapped[1] == f(n1));
                assert(Multiset::empty().insert(f(n2)).insert(f(n1)) =~= Multiset::empty().insert(
                    f(n1),
                ).insert(f(n2)));
                assert(items.deep_view().to_multiset() =~= Multiset::empty().insert(
                    n1 + annot(m, n1),
                ).insert(n2 + annot(m, n2)));
            }
        },
    }
}

/// Completing any prefix against an index that holds nothing yields no
/// match.
pub proof fn lemma_complete_nothing(
    m: Map<Seq<char>, Option<Seq<char>>>,
    p: Seq<char>,
    r: CompletionResponse,
)
    requires
        no_trie_entries(m),
        Autocompleter::complete_post(m, p, r),
    ensures
        r is NoMatch,
{
    reveal(extends_key);
    match r {
        CompletionResponse::NoMatch => {},
        CompletionResponse::Single(rest, _suffix) => {
            assert(m.contains_key(p + rest@));
            assert(false);
        },
        CompletionResponse::Multiple(items) => {
            let q = choose|q: Seq<char>|
                {
                    &&& #[trigger] chain_from(m, p, q)
                    &&& !m.contains_key(q)
                    &&& many_children(m, q)
                    &&& sorted_le(items.deep_view())
                    &&& exists|ks: Seq<Seq<char>>|
                        {
                            &&& #[trigger] ks.no_duplicates()
                            &&& forall|k: Seq<char>|
                                #[trigger] ks.contains(k) <==> m.contains_key(k)
                                    && q.is_prefix_of(k)
                            &&& items.deep_view().to_multiset() == ks.map_values(
                                |k: Seq<char>| k + annot(m, k),
                            ).to_multiset()
                        }
                };
            let (c1, c2) = choose|c1: char, c2: char|
                c1 != c2 && #[trigger] extends_key(m, q.push(c1)) && #[trigger] extends_key(
                    m,
                    q.push(c2),
                );
            assert(extends_key(m, q.push(c1)));
            let k = choose|k: Seq<char>| #[trigger] m.contains_key(k) && q.push(c1).is_prefix_of(
                k,
            );
            assert(false);
        },
    }
}

/// The annotated completion index.
pub struct Autocompleter {
    store: TrieStore,
    max_len: usize,
}

impl View for Autocompleter {
    type V = Map<Seq<char>, Option<Seq<char>>>;

    closed spec fn view(&self) -> Self::V {
        trie_entries(self.store)
    }
}

/// The characters of an optional annotation, empty when there is none.
pub open spec fn opt_chars(o: Option<Seq<char>>) -> Seq<char> {
    match o {
        Some(s) => s,
        None => Seq::empty(),
    }
}

impl Autocompleter {
    /// Every stored name fits under the tracked length bound.
    pub closed spec fn wf(self) -> bool {
        forall|k: Seq<char>| #[trigger] self@.contains_key(k) ==> k.len() <= self.max_len
    }

    /// The completion result `r` is what completing `p` against contents `m`
    /// must yield.
    pub open spec fn complete_post(
        m: Map<Seq<char>, Option<Seq<char>>>,
        p: Seq<char>,
        r: CompletionResponse,
    ) -> bool {
        match r {
            CompletionResponse::NoMatch => !extends_key(m, p),
            CompletionResponse::Single(rest, suffix) => {
                let q = p + rest@;
                &&& chain_from(m, p, q)
                &&& m.contains_key(q)
                &&& (no_child(m, q) ==> suffix.deep_view() == m[q])
                &&& (!no_child(m, q) ==> suffix.deep_view() == Some(Seq::<char>::empty()))
            },
            CompletionResponse::Multiple(items) => exists|q: Seq<char>|
                {
                    &&& #[trigger] chain_from(m, p, q)
                    &&& !m.contains_key(q)
                    &&& many_children(m, q)
                    &&& sorted_le(items.deep_view())
                    &&& exists|ks: Seq<Seq<char>>|
                        {
                            &&& #[trigger] ks.no_duplicates()
                            &&& forall|k: Seq<char>|
                                #[trigger] ks.contains(k) <==> m.contains_key(k)
                                    && q.is_prefix_of(k)
                            &&& items.deep_view().to_multiset() == ks.map_values(
                                |k: Seq<char>| k + annot(m, k),
                            ).to_multiset()
                        }
                },
        }
    }

    /// An empty index.
    pub fn new() -> (r: Autocompleter)
        ensures
            r.wf(),
            no_trie_entries(r@),
    {
        Autocompleter { store: TrieStore::new(), max_len: 0 }
    }

    /// Stores one name together with its annotation.
    pub fn insert_val(&mut self, name: &str, val: &str)
        requires
            old(self).wf(),
        ensures
            final(self).wf(),
            final(self)@ == old(self)@.insert(name@, Some(val@)),
    {
        let key = chars_of(name);
        if key.len() > self.max_len {
            self.max_len = key.len();
        }
        let stored = Some(val.to_owned());
        proof {
            assert(stored.deep_view() == Some(val@));
        }
        self.store.insert(&key, stored);
        proof {
            assert forall|k: Seq<char>| #[trigger] self@.contains_key(k) implies k.len()
                <= self.max_len by {
                if k != name@ {
                    assert(old(self)@.contains_key(k));
                }
            }
        }
    }

    /// Stores one name without an annotation.
    pub fn insert(&mut self, name: &str)
        requires
            old(self).wf(),
        ensures
            final(self).wf(),
            final(self)@ == old(self)@.insert(name@, None::<Seq<char>>),
    {
        let key = chars_of(name);
        if key.len() > self.max_len {
            self.max_len = key.len();
        }
        self.store.insert(&key, None);
        proof {
            assert(None::<String>.deep_view() == None::<Seq<char>>);
            assert forall|k: Seq<char>| #[trigger] self@.contains_key(k) implies k.len()
                <= self.max_len by {
                if k != name@ {
                    assert(old(self)@.contains_key(k));
                }
            }
        }
    }

    /// Completes `current` against the stored names.
    #[verifier::loop_isolation(false)]
    pub fn autocomplete(&self, current: &str) -> (r: CompletionResponse)
        requires
            self.wf(),
        ensures
            Self::complete_post(self@, current@, r),
    {
        let ghost m = self@;
        let p = chars_of(current);
        match complete_walk(&self.store, &p, self.max_len) {
            WalkOutcome::NoMatch => CompletionResponse::NoMatch,
            WalkOutcome::Single { rest, leaf, val } => {
                let s = string_of_chars(rest.as_slice());
                if leaf {
                    CompletionResponse::Single(s, val)
                } else {
                    CompletionResponse::Single(s, Some(String::new()))
                }
            },
            WalkOutcome::Multiple { rest, entries } => {
                let mut q = p;
                extend_chars(&mut q, rest.as_slice());
                let ghost qv = q@;
                let mut items: Vec<String> = Vec::new();
                let mut i: usize = 0;
                while i < entries.len()
                    invariant
                        i <= entries@.len(),
                        q@ == qv,
                        items.deep_view().len() == i,
                        forall|j: int|
                            0 <= j < i ==> #[trigger] items.deep_view()[j] == qv
                                + entries@[j].0@ + opt_chars(entries@[j].1.deep_view()),
                    decreases entries@.len() - i,
                {
                    let mut full = clone_chars(&q);
                    extend_chars(&mut full, entries[i].0.as_slice());
                    let mut s = string_of_chars(full.as_slice());
                    match &entries[i].1 {
                        Some(v) => {
                            s.append(v.as_str());
                        },
                        None => {},
                    }
                    let ghost pre_items = items@;
                    let ghost pre_dv = items.deep_view();
                    items.push(s);
                    proof {
                        assert(items@ == pre_items.push(s));
                        assert forall|j: int|
                            0 <= j < i + 1 implies #[trigger] items.deep_view()[j] == qv
                            + entries@[j].0@ + opt_chars(entries@[j].1.deep_view()) by {
                            assert(items.deep_view()[j] == items@[j].deep_view());
                            if j < i {
                                assert(items@[j] == pre_items[j]);
                                assert(pre_dv[j] == pre_items[j].deep_view());
                            } else {
                                assert(items@[j] == s);
                                assert(s@ == qv + entries@[i as int].0@ + opt_chars(
                                    entries@[i as int].1.deep_view(),
                                ));
                            }
                        }
                    }
                    i = i + 1;
                }
                let ghost pre_sort = items.deep_view();
                let sorted = sort_strings(items);
                proof {
                    let evs = entries@.map_values(
                        |e: (Vec<char>, Option<String>)| crate::completion::entry_view(e),
                    );
                    let fulls = Seq::new(evs.len(), |j: int| qv + evs[j].0);
                    assert forall|j: int| 0 <= j < fulls.len() implies #[trigger] fulls[j] == qv
                        + evs[j].0 by {}
                    lemma_entry_keys(m, qv, evs, fulls);
                    let mapped = fulls.map_values(|k: Seq<char>| k + annot(m, k));
                    assert(pre_sort =~= mapped) by {
                        assert forall|j: int| 0 <= j < pre_sort.len() implies pre_sort[j]
                            == mapped[j] by {
                            assert(evs[j] == crate::completion::entry_view(entries@[j]));
                            assert(mapped[j] == fulls[j] + annot(m, fulls[j]));
                            assert(m.contains_key(qv + evs[j].0) && m[qv + evs[j].0]
                                == evs[j].1);
                            assert(annot(m, fulls[j]) == opt_chars(entries@[j].1.deep_view()));
                        }
                    }
                    assert(chain_from(m, p@, qv));
                }
                CompletionResponse::Multiple(sorted)
            },
        }
    }
}

} // verus!
