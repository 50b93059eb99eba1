//! The completion walk shared by the two completion indexes.
//!
//! A completion query follows the trie along the queried prefix, then keeps
//! descending while the current node carries no inserted key and has exactly
//! one child. The walk's outcome is characterised here purely in terms of the
//! map of inserted keys: `chain_from` describes the forced part of the walk,
//! `stop_at` the node where it must end, and `lemma_stop_unique` shows that
//! the stopping point is determined by the contents and the prefix alone.

use vstd::prelude::*;

use crate::trie_store::TrieStore;
use crate::trie_store::extends_key;
use crate::trie_store::trie_entries;

verus! {

/// The node at `q` has no children: no inserted key lies strictly below `q`.
pub open spec fn no_child(m: Map<Seq<char>, Option<Seq<char>>>, q: Seq<char>) -> bool {
    forall|c: char| !#[trigger] extends_key(m, q.push(c))
}

/// The node at `q` has exactly one child, labelled `c`.
pub open spec fn only_child(m: Map<Seq<char>, Option<Seq<char>>>, q: Seq<char>, c: char) -> bool {
    extends_key(m, q.push(c)) && forall|d: char| #[trigger] extends_key(m, q.push(d)) ==> d == c
}

/// The node at `q` has at least two children.
pub open spec fn many_children(m: Map<Seq<char>, Option<Seq<char>>>, q: Seq<char>) -> bool {
    exists|c: char, d: char|
        c != d && #[trigger] extends_key(m, q.push(c)) && #[trigger] extends_key(m, q.push(d))
}

/// The walk from `p` was forced through every position up to `q`: no
/// intermediate node carries a key, and each has exactly one child, the next
/// character of `q`.
pub open spec fn chain_from(
    m: Map<Seq<char>, Option<Seq<char>>>,
    p: Seq<char>,
    q: Seq<char>,
) -> bool {
    p.is_prefix_of(q) && forall|i: int|
        p.len() <= i < q.len() ==> !m.contains_key(#[trigger] q.take(i)) && only_child(
            m,
            q.take(i),
            q[i],
        )
}

/// The walk cannot continue below `q`: either `q` is an inserted key, or it
/// does not have exactly one child.
pub open spec fn stop_at(m: Map<Seq<char>, Option<Seq<char>>>, q: Seq<char>) -> bool {
    m.contains_key(q) || no_child(m, q) || many_children(m, q)
}

/// The annotation stored under key `k`, read as the empty sequence when the
/// key was inserted without one.
pub open spec fn annot(m: Map<Seq<char>, Option<Seq<char>>>, k: Seq<char>) -> Seq<char> {
    match m[k] {
        Some(s) => s,
        None => Seq::empty(),
    }
}

/// A node with no key and no children extends no inserted key at all.
pub proof fn lemma_no_ext(m: Map<Seq<char>, Option<Seq<char>>>, q: Seq<char>)
    requires
        !m.contains_key(q),
        no_child(m, q),
    ensures
        !extends_key(m, q),
{
    reveal(extends_key);
    if extends_key(m, q) {
        let k = choose|k: Seq<char>| #[trigger] m.contains_key(k) && q.is_prefix_of(k);
        assert(k.len() >= q.len());
        if k.len() == q.len() {
            assert(k =~= q);
        } else {
            let c = k[q.len() as int];
            assert(q.push(c).is_prefix_of(k)) by {
                assert(q.push(c) =~= k.take(q.len() as int + 1));
                assert(k.take(q.len() as int + 1).is_prefix_of(k));
            }
            assert(extends_key(m, q.push(c)));
        }
    }
}

/// The positions of two forced walks from the same prefix agree as far as
/// both reach.
proof fn lemma_chain_agree(
    m: Map<Seq<char>, Option<Seq<char>>>,
    p: Seq<char>,
    q1: Seq<char>,
    q2: Seq<char>,
    i: int,
)
    requires
        chain_from(m, p, q1),
        chain_from(m, p, q2),
        p.len() <= i <= q1.len(),
        i <= q2.len(),
    ensures
        q1.take(i) == q2.take(i),
    decreases i,
{
    if i == p.len() {
        assert(q1.take(i) =~= p);
        assert(q2.take(i) =~= p);
    } else {
        lemma_chain_agree(m, p, q1, q2, i - 1);
        assert(only_child(m, q1.take(i - 1), q1[i - 1]));
        assert(only_child(m, q2.take(i - 1), q2[i - 1]));
        assert(extends_key(m, q2.take(i - 1).push(q2[i - 1])));
        assert(q1.take(i - 1).push(q2[i - 1]) == q2.take(i - 1).push(q2[i - 1]));
        assert(q1[i - 1] == q2[i - 1]);
        assert(q1.take(i) =~= q1.take(i - 1).push(q1[i - 1]));
        assert(q2.take(i) =~= q2.take(i - 1).push(q2[i - 1]));
    }
}

/// The walk's stopping point is unique: the contents and the prefix determine
/// where the forced descent ends.
pub proof fn lemma_stop_unique(
    m: Map<Seq<char>, Option<Seq<char>>>,
    p: Seq<char>,
    q1: Seq<char>,
    q2: Seq<char>,
)
    requires
        chain_from(m, p, q1),
        stop_at(m, q1),
        chain_from(m, p, q2),
        stop_at(m, q2),
    ensures
        q1 == q2,
{
    if q1.len() < q2.len() {
        lemma_chain_agree(m, p, q1, q2, q1.len() as int);
        assert(q1.take(q1.len() as int) =~= q1);
        assert(q2.take(q1.len() as int) == q1);
        let c = q2[q1.len() as int];
        assert(!m.contains_key(q1) && only_child(m, q1, c));
        assert(extends_key(m, q1.push(c)));
        if many_children(m, q1) {
            let (c1, c2) = choose|c1: char, c2: char|
                c1 != c2 && #[trigger] extends_key(m, q1.push(c1)) && #[trigger] extends_key(
                    m,
                    q1.push(c2),
                );
            assert(c1 == c && c2 == c);
        }
    } else if q2.len() < q1.len() {
        lemma_chain_agree(m, p, q2, q1, q2.len() as int);
        assert(q2.take(q2.len() as int) =~= q2);
        assert(q1.take(q2.len() as int) == q2);
        let c = q1[q2.len() as int];
        assert(!m.contains_key(q2) && only_child(m, q2, c));
        assert(extends_key(m, q2.push(c)));
        if many_children(m, q2) {
            let (c1, c2) = choose|c1: char, c2: char|
                c1 != c2 && #[trigger] extends_key(m, q2.push(c1)) && #[trigger] extends_key(
                    m,
                    q2.push(c2),
                );
            assert(c1 == c && c2 == c);
        }
    } else {
        lemma_chain_agree(m, p, q1, q2, q1.len() as int);
        assert(q1 =~= q1.take(q1.len() as int));
        assert(q2 =~= q2.take(q2.len() as int));
    }
}

/// What `TrieStore::child_chars` reports, restated over positions of `cs`.
pub open spec fn lists_children(
    m: Map<Seq<char>, Option<Seq<char>>>,
    q: Seq<char>,
    cs: Seq<char>,
) -> bool {
    &&& forall|i: int|
        forall|j: int| 0 <= i < j < cs.len() ==> #[trigger] cs[i] != #[trigger] cs[j]
    &&& forall|c: char| #[trigger] cs.contains(c) ==> extends_key(m, q.push(c))
    &&& forall|k: Seq<char>|
        #[trigger] m.contains_key(k) && k.len() > q.len() && q.is_prefix_of(k) ==> cs.contains(
            k[q.len() as int],
        )
}

/// Every child the trie has is in the child list.
#[verifier::spinoff_prover]
proof fn lemma_children_complete(
    m: Map<Seq<char>, Option<Seq<char>>>,
    q: Seq<char>,
    cs: Seq<char>,
    c: char,
)
    requires
        lists_children(m, q, cs),
        extends_key(m, q.push(c)),
    ensures
        cs.contains(c),
{
    reveal(extends_key);
    assert(exists|k: Seq<char>| #[trigger] m.contains_key(k) && q.push(c).is_prefix_of(k));
    let k = choose|k: Seq<char>| #[trigger] m.contains_key(k) && q.push(c).is_prefix_of(k);
    assert(m.contains_key(k) && q.push(c).is_prefix_of(k));
    assert(q.push(c).len() == q.len() + 1);
    assert(q.push(c) =~= k.subrange(0, q.len() as int + 1));
    assert(k.len() > q.len());
    assert(k[q.len() as int] == c) by {
        assert(k.subrange(0, q.len() as int + 1)[q.len() as int] == k[q.len() as int]);
        assert(q.push(c)[q.len() as int] == c);
    }
    assert(q.is_prefix_of(k)) by {
        assert(q =~= k.take(q.len() as int));
        assert(k.take(q.len() as int).is_prefix_of(k));
    }
}

/// A child list is sound and complete for child existence.
proof fn lemma_children_branch(m: Map<Seq<char>, Option<Seq<char>>>, q: Seq<char>, cs: Seq<char>)
    requires
        lists_children(m, q, cs),
    ensures
        forall|c: char| #[trigger] extends_key(m, q.push(c)) <==> cs.contains(c),
{
    assert forall|c: char| #[trigger] extends_key(m, q.push(c)) implies cs.contains(c) by {
        lemma_children_complete(m, q, cs, c);
    }
    assert forall|c: char| cs.contains(c) implies #[trigger] extends_key(m, q.push(c)) by {
    }
}

/// An empty child list at a keyless node means no key extends the node.
proof fn lemma_walk_dead_end(m: Map<Seq<char>, Option<Seq<char>>>, q: Seq<char>, cs: Seq<char>)
    requires
        lists_children(m, q, cs),
        cs.len() == 0,
        !m.contains_key(q),
    ensures
        no_child(m, q),
        !extends_key(m, q),
{
    lemma_children_branch(m, q, cs);
    lemma_no_ext(m, q);
}

/// A one-element child list forces the walk one step further down.
proof fn lemma_walk_forced(
    m: Map<Seq<char>, Option<Seq<char>>>,
    p: Seq<char>,
    q: Seq<char>,
    cs: Seq<char>,
)
    requires
        lists_children(m, q, cs),
        cs.len() == 1,
        !m.contains_key(q),
        chain_from(m, p, q),
    ensures
        only_child(m, q, cs[0]),
        chain_from(m, p, q.push(cs[0])),
        extends_key(m, q.push(cs[0])),
        exists|k: Seq<char>| #[trigger] m.contains_key(k) && k.len() > q.len(),
{
    lemma_children_branch(m, q, cs);
    let c = cs[0];
    assert(cs.contains(c));
    assert forall|d: char| #[trigger] extends_key(m, q.push(d)) implies d == c by {
        assert(cs.contains(d));
        let i = choose|i: int| 0 <= i < cs.len() && cs[i] == d;
        assert(i == 0);
    }
    assert(extends_key(m, q.push(c)));
    assert(exists|k: Seq<char>| #[trigger] m.contains_key(k) && k.len() > q.len()) by {
        reveal(extends_key);
        let k = choose|k: Seq<char>| #[trigger] m.contains_key(k) && q.push(c).is_prefix_of(k);
        assert(m.contains_key(k) && k.len() > q.len());
    }
    assert forall|i: int|
        p.len() <= i < q.push(c).len() implies !m.contains_key(#[trigger] q.push(c).take(i))
        && only_child(m, q.push(c).take(i), q.push(c)[i]) by {
        if i < q.len() {
            assert(q.push(c).take(i) =~= q.take(i));
            assert(q.push(c)[i] == q[i]);
        } else {
            assert(q.push(c).take(i) =~= q);
            assert(q.push(c)[i] == c);
        }
    }
    assert(p.is_prefix_of(q.push(c))) by {
        assert(p =~= q.push(c).take(p.len() as int));
        assert(q.push(c).take(p.len() as int).is_prefix_of(q.push(c)));
    }
}

/// A child list with two or more entries means the trie branches at `q`.
proof fn lemma_walk_branches(m: Map<Seq<char>, Option<Seq<char>>>, q: Seq<char>, cs: Seq<char>)
    requires
        lists_children(m, q, cs),
        cs.len() >= 2,
    ensures
        many_children(m, q),
{
    lemma_children_branch(m, q, cs);
    let c0 = cs[0];
    let c1 = cs[1];
    assert(cs.contains(c0));
    assert(cs.contains(c1));
    assert(c0 != c1);
    assert(extends_key(m, q.push(c0)));
    assert(extends_key(m, q.push(c1)));
}

/// When one stored key is the only one extending `p`, the walk from `p` is
/// forced all the way to that key, which is a leaf.
pub proof fn lemma_unique_prefix_chain(
    m: Map<Seq<char>, Option<Seq<char>>>,
    name: Seq<char>,
    p: Seq<char>,
)
    requires
        m.contains_key(name),
        forall|k: Seq<char>| #[trigger] m.contains_key(k) && p.is_prefix_of(k) ==> k == name,
        p.is_prefix_of(name),
    ensures
        chain_from(m, p, name),
        no_child(m, name),
        extends_key(m, p),
{
    reveal(extends_key);
    assert(extends_key(m, p));
    assert forall|c: char| !#[trigger] extends_key(m, name.push(c)) by {
        if extends_key(m, name.push(c)) {
            let k = choose|k: Seq<char>| #[trigger] m.contains_key(k) && name.push(c).is_prefix_of(
                k,
            );
            assert(p.is_prefix_of(k)) by {
                assert(p =~= k.take(p.len() as int));
                assert(k.take(p.len() as int).is_prefix_of(k));
            }
            assert(k == name);
        }
    }
    assert forall|i: int|
        p.len() <= i < name.len() implies !m.contains_key(#[trigger] name.take(i)) && only_child(
        m,
        name.take(i),
        name[i],
    ) by {
        let r = name.take(i);
        if m.contains_key(r) {
            assert(p.is_prefix_of(r)) by {
                assert(p =~= r.take(p.len() as int));
                assert(r.take(p.len() as int).is_prefix_of(r));
            }
            assert(r == name);
        }
        assert(extends_key(m, r.push(name[i]))) by {
            assert(r.push(name[i]) =~= name.take(i + 1));
            assert(name.take(i + 1).is_prefix_of(name));
        }
        assert forall|d: char| #[trigger] extends_key(m, r.push(d)) implies d == name[i] by {
            let k = choose|k: Seq<char>| #[trigger] m.contains_key(k) && r.push(d).is_prefix_of(k);
            assert(p.is_prefix_of(k)) by {
                assert(p =~= k.take(p.len() as int));
                assert(k.take(p.len() as int).is_prefix_of(k));
            }
            assert(k == name);
            assert(r.push(d) == name.take(i + 1)) by {
                assert(r.push(d) =~= name.take(i + 1));
            }
            assert(name.take(i + 1)[i] == name[i]);
            assert(r.push(d)[i] == d);
        }
    }
}

/// When exactly two stored keys extend `p` and they part ways at `d`, the
/// walk from `p` is forced to `d`, where the trie branches.
pub proof fn lemma_pair_chain(
    m: Map<Seq<char>, Option<Seq<char>>>,
    p: Seq<char>,
    n1: Seq<char>,
    n2: Seq<char>,
    d: Seq<char>,
)
    requires
        m.contains_key(n1),
        m.contains_key(n2),
        forall|k: Seq<char>|
            #[trigger] m.contains_key(k) && p.is_prefix_of(k) ==> k == n1 || k == n2,
        p.is_prefix_of(d),
        d.len() < n1.len(),
        d.len() < n2.len(),
        d == n1.take(d.len() as int),
        d == n2.take(d.len() as int),
        n1[d.len() as int] != n2[d.len() as int],
    ensures
        chain_from(m, p, d),
        !m.contains_key(d),
        many_children(m, d),
{
    reveal(extends_key);
    assert(d.is_prefix_of(n1));
    assert(d.is_prefix_of(n2));
    if m.contains_key(d) {
        assert(p.is_prefix_of(d));
        assert(d == n1 || d == n2);
    }
    let c1 = n1[d.len() as int];
    let c2 = n2[d.len() as int];
    assert(extends_key(m, d.push(c1))) by {
        assert(d.push(c1) =~= n1.take(d.len() as int + 1));
        assert(n1.take(d.len() as int + 1).is_prefix_of(n1));
    }
    assert(extends_key(m, d.push(c2))) by {
        assert(d.push(c2) =~= n2.take(d.len() as int + 1));
        assert(n2.take(d.len() as int + 1).is_prefix_of(n2));
    }
    assert(many_children(m, d));
    assert forall|i: int|
        p.len() <= i < d.len() implies !m.contains_key(#[trigger] d.take(i)) && only_child(
        m,
        d.take(i),
        d[i],
    ) by {
        let r = d.take(i);
        assert(r.is_prefix_of(n1)) by {
            assert(r =~= n1.take(i));
            assert(n1.take(i).is_prefix_of(n1));
        }
        if m.contains_key(r) {
            assert(p.is_prefix_of(r)) by {
                assert(p =~= r.take(p.len() as int));
                assert(r.take(p.len() as int).is_prefix_of(r));
            }
            assert(r == n1 || r == n2);
        }
        assert(extends_key(m, r.push(d[i]))) by {
            assert(m.contains_key(n1));
            assert(r.push(d[i]) =~= n1.take(i + 1));
            assert(n1.take(i + 1).is_prefix_of(n1));
        }
        assert forall|e: char| #[trigger] extends_key(m, r.push(e)) implies e == d[i] by {
            let k = choose|k: Seq<char>| #[trigger] m.contains_key(k) && r.push(e).is_prefix_of(k);
            assert(p.is_prefix_of(k)) by {
                assert(p =~= k.take(p.len() as int));
                assert(k.take(p.len() as int).is_prefix_of(k));
            }
            assert(k == n1 || k == n2);
            if k == n1 {
                assert(e == n1[i]) by {
                    assert(r.push(e) =~= n1.take(i + 1));
                }
                assert(n1[i] == d[i]);
            } else {
                assert(e == n2[i]) by {
                    assert(r.push(e) =~= n2.take(i + 1));
                }
                assert(n2[i] == d[i]);
            }
        }
    }
}

/// Raw outcome of one completion walk over a `TrieStore`.
pub enum WalkOutcome {
    /// No inserted key extends the prefix.
    NoMatch,
    /// The walk ended on an inserted key: `rest` is the part walked beyond
    /// the prefix, `leaf` says whether anything lies below it, `val` is its
    /// annotation.
    Single { rest: Vec<char>, leaf: bool, val: Option<String> },
    /// The walk ended where the trie branches: `rest` is the part walked
    /// beyond the prefix, `entries` lists everything below the branch point,
    /// relative to it, in arbitrary order.
    Multiple { rest: Vec<char>, entries: Vec<(Vec<char>, Option<String>)> },
}

/// The `entries` list of a `Multiple` outcome names every key below the stop
/// point `q` exactly once, through its remainder beyond `q`.
pub open spec fn lists_entries(
    m: Map<Seq<char>, Option<Seq<char>>>,
    q: Seq<char>,
    entries: Seq<(Seq<char>, Option<Seq<char>>)>,
) -> bool {
    &&& forall|i: int|
        forall|j: int|
            0 <= i < j < entries.len() ==> (#[trigger] entries[i]).0 != (#[trigger] entries[j]).0
    &&& forall|i: int|
        0 <= i < entries.len() ==> m.contains_key(q + (#[trigger] entries[i]).0) && m[q
            + entries[i].0] == entries[i].1
    &&& forall|k: Seq<char>|
        #[trigger] m.contains_key(k) && q.is_prefix_of(k) ==> exists|i: int|
            0 <= i < entries.len() && (#[trigger] entries[i]).0 == k.skip(q.len() as int)
}

/// View of an entry pair as a pair of sequences.
pub open spec fn entry_view(e: (Vec<char>, Option<String>)) -> (Seq<char>, Option<Seq<char>>) {
    (e.0@, e.1.deep_view())
}

/// Joining the stop point `q` to each listed remainder yields, without
/// repetition, exactly the inserted keys that `q` is a prefix of.
pub proof fn lemma_entry_keys(
    m: Map<Seq<char>, Option<Seq<char>>>,
    q: Seq<char>,
    evs: Seq<(Seq<char>, Option<Seq<char>>)>,
    fulls: Seq<Seq<char>>,
)
    requires
        lists_entries(m, q, evs),
        fulls.len() == evs.len(),
        forall|i: int| 0 <= i < fulls.len() ==> #[trigger] fulls[i] == q + evs[i].0,
    ensures
        fulls.no_duplicates(),
        forall|s: Seq<char>|
            #[trigger] fulls.contains(s) <==> m.contains_key(s) && q.is_prefix_of(s),
{
    assert forall|i: int, j: int|
        0 <= i < fulls.len() && 0 <= j < fulls.len() && i != j implies fulls[i] != fulls[j] by {
        if fulls[i] == fulls[j] {
            assert((q + evs[i].0).len() == (q + evs[j].0).len());
            assert(evs[i].0 =~= evs[j].0) by {
                assert forall|n: int| 0 <= n < evs[i].0.len() implies evs[i].0[n] == evs[j].0[n] by {
                    assert((q + evs[i].0)[q.len() + n] == evs[i].0[n]);
                    assert((q + evs[j].0)[q.len() + n] == evs[j].0[n]);
                }
            }
            if i < j {
                assert((#[trigger] evs[i]).0 != (#[trigger] evs[j]).0);
            } else {
                assert((#[trigger] evs[j]).0 != (#[trigger] evs[i]).0);
            }
        }
    }
    assert forall|s: Seq<char>|
        #[trigger] fulls.contains(s) implies m.contains_key(s) && q.is_prefix_of(s) by {
        let i = choose|i: int| 0 <= i < fulls.len() && fulls[i] == s;
        assert(fulls[i] == q + evs[i].0);
        assert(m.contains_key(q + evs[i].0));
        assert(q.is_prefix_of(q + evs[i].0)) by {
            assert(q =~= (q + evs[i].0).take(q.len() as int));
            assert((q + evs[i].0).take(q.len() as int).is_prefix_of(q + evs[i].0));
        }
    }
    assert forall|s: Seq<char>|
        m.contains_key(s) && q.is_prefix_of(s) implies #[trigger] fulls.contains(s) by {
        let i = choose|i: int|
            0 <= i < evs.len() && (#[trigger] evs[i]).0 == s.skip(q.len() as int);
        assert(fulls[i] == q + evs[i].0);
        assert(q + s.skip(q.len() as int) =~= s);
        assert(fulls[i] == s);
    }
}

/// One completion walk, starting at `prefix`, over a store whose keys are no
/// longer than `max_len`.
pub(crate) fn complete_walk(store: &TrieStore, prefix: &Vec<char>, max_len: usize) -> (r: WalkOutcome)
    requires
        forall|k: Seq<char>|
            #[trigger] trie_entries(*store).contains_key(k) ==> k.len() <= max_len,
    ensures
        ({
            let m = trie_entries(*store);
            let p = prefix@;
            match r {
                WalkOutcome::NoMatch => !extends_key(m, p),
                WalkOutcome::Single { rest, leaf, val } => {
                    let q = p + rest@;
                    &&& chain_from(m, p, q)
                    &&& m.contains_key(q)
                    &&& val.deep_view() == m[q]
                    &&& (leaf <==> no_child(m, q))
                },
                WalkOutcome::Multiple { rest, entries } => {
                    let q = p + rest@;
                    &&& chain_from(m, p, q)
                    &&& !m.contains_key(q)
                    &&& many_children(m, q)
                    &&& lists_entries(m, q, entries@.map_values(|e| entry_view(e)))
                },
            }
        }),
{
    let ghost m = trie_entries(*store);
    let ghost p = prefix@;
    let mut q: Vec<char> = prefix.clone();
    let mut rest: Vec<char> = Vec::new();
    loop
        invariant
            forall|k: Seq<char>| #[trigger] m.contains_key(k) ==> k.len() <= max_len,
            m == trie_entries(*store),
            p == prefix@,
            q@ == p + rest@,
            chain_from(m, p, q@),
            q@.len() > p.len() ==> extends_key(m, q@),
        decreases max_len + 1 - q.len(),
    {
        let value = store.value_at(&q);
        let children = store.child_chars(&q);
        proof {
            assert(lists_children(m, q@, children@)) by {
                assert forall|k: Seq<char>|
                    #[trigger] m.contains_key(k) && k.len() > q@.len() && q@.is_prefix_of(
                        k,
                    ) implies children@.contains(k[q@.len() as int]) by {
                    assert(k.take(q@.len() as int + 1) =~= q@.push(k[q@.len() as int]));
                }
            }
        }
        match value {
            Some(val) => {
                let leaf = children.len() == 0;
                proof {
                    lemma_children_branch(m, q@, children@);
                    if leaf {
                        assert(no_child(m, q@));
                    } else {
                        assert(children@.contains(children@[0]));
                        assert(extends_key(m, q@.push(children@[0])));
                        assert(!no_child(m, q@));
                    }
                }
                return WalkOutcome::Single { rest, leaf, val };
            },
            None => {
                if children.len() == 0 {
                    proof {
                        lemma_walk_dead_end(m, q@, children@);
                        if q@.len() > p.len() {
                            assert(false);
                        }
                        assert(q@ =~= p);
                    }
                    return WalkOutcome::NoMatch;
                } else if children.len() == 1 {
                    let c = children[0];
                    proof {
                        lemma_walk_forced(m, p, q@, children@);
                        let k = choose|k: Seq<char>|
                            #[trigger] m.contains_key(k) && k.len() > q@.len();
                        assert(q@.len() < max_len);
                    }
                    q.push(c);
                    rest.push(c);
                    proof {
                        assert(q@ == p + rest@) by {
                            assert(q@ =~= p + rest@);
                        }
                    }
                } else {
                    proof {
                        lemma_walk_branches(m, q@, children@);
                    }
                    let entries = store.entries_under(&q);
                    proof {
                        let evs = entries@.map_values(
                            |e: (Vec<char>, Option<String>)| entry_view(e),
                        );
                        assert(lists_entries(m, q@, evs)) by {
                            assert forall|i: int| 0 <= i < evs.len() implies m.contains_key(
                                q@ + (#[trigger] evs[i]).0,
                            ) && m[q@ + evs[i].0] == evs[i].1 by {
                                assert(evs[i] == entry_view(entries@[i]));
                            }
                            assert forall|i: int, j: int|
                                0 <= i < j < evs.len() implies (#[trigger] evs[i]).0 != (
                            #[trigger] evs[j]).0 by {
                                assert(evs[i] == entry_view(entries@[i]));
                                assert(evs[j] == entry_view(entries@[j]));
                            }
                            assert forall|k: Seq<char>|
                                #[trigger] m.contains_key(k) && q@.is_prefix_of(
                                    k,
                                ) implies exists|i: int|
                                0 <= i < evs.len() && (#[trigger] evs[i]).0 == k.skip(
                                    q@.len() as int,
                                ) by {
                                let i = choose|i: int|
                                    0 <= i < entries@.len() && (#[trigger] entries@[i]).0@
                                        == k.skip(q@.len() as int);
                                assert(evs[i] == entry_view(entries@[i]));
                                assert(0 <= i < evs.len() && evs[i].0 == k.skip(q@.len() as int));
                            }
                        }
                        assert(q@ == p + rest@);
                    }
                    return WalkOutcome::Multiple { rest, entries };
                }
            },
        }
    }
}

} // verus!
