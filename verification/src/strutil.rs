//! Small string helpers shared by the parser, the completion trie, the
//! history store and the builtins: character classification, case folding,
//! conversions between `&str` and `Vec<char>`, and decimal rendering.

use vstd::multiset::Multiset;
use vstd::prelude::*;
use vstd::string::StrSliceExecFns;

verus! {

/// ASCII whitespace, as `char::is_ascii_whitespace` defines it.
pub open spec fn is_space(c: char) -> bool {
    c == ' ' || c == '\t' || c == '\n' || c == '\x0c' || c == '\r'
}

/// ASCII decimal digit.
pub open spec fn is_digit(c: char) -> bool {
    '0' <= c && c <= '9'
}

/// Lower-case image of one character, folding only ASCII letters.
pub open spec fn lower_char(c: char) -> char {
    if 'A' <= c && c <= 'Z' {
        ((c as u8) + 32) as char
    } else {
        c
    }
}

/// Lower-case image of a whole character sequence.
pub open spec fn lower_seq(s: Seq<char>) -> Seq<char> {
    s.map_values(|c: char| lower_char(c))
}

pub fn char_is_space(c: char) -> (r: bool)
    ensures
        r == is_space(c),
{
    c == ' ' || c == '\t' || c == '\n' || c == '\x0c' || c == '\r'
}

pub fn char_is_digit(c: char) -> (r: bool)
    ensures
        r == is_digit(c),
{
    '0' <= c && c <= '9'
}

pub fn char_to_lower(c: char) -> (r: char)
    ensures
        r == lower_char(c),
{
    if 'A' <= c && c <= 'Z' {
        ((c as u8) + 32) as char
    } else {
        c
    }
}

/// The characters of a string slice, in order.
pub fn chars_of(s: &str) -> (r: Vec<char>)
    ensures
        r@ == s@,
{
    let n = s.unicode_len();
    let mut r: Vec<char> = Vec::new();
    let mut i: usize = 0;
    while i < n
        invariant
            n == s@.len(),
            i <= n,
            r@ == s@.subrange(0, i as int),
        decreases n - i,
    {
        r.push(s.get_char(i));
        i = i + 1;
    }
    proof {
        assert(r@ =~= s@);
    }
    r
}

/// Relies on `String::push`: appends exactly the given character.
#[verifier::external_body]
pub fn push_char(s: &mut String, c: char)
    ensures
        final(s)@ == old(s)@.push(c),
{
    s.push(c);
}

/// A `String` holding the given characters, in order.
pub fn string_of_chars(cs: &[char]) -> (r: String)
    ensures
        r@ == cs@,
{
    let mut r = String::new();
    let mut i: usize = 0;
    while i < cs.len()
        invariant
            i <= cs@.len(),
            r@ == cs@.subrange(0, i as int),
        decreases cs@.len() - i,
    {
        push_char(&mut r, cs[i]);
        i = i + 1;
    }
    proof {
        assert(r@ =~= cs@);
    }
    r
}

/// A copy of a character vector.
pub fn clone_chars(v: &Vec<char>) -> (r: Vec<char>)
    ensures
        r@ == v@,
{
    let mut r: Vec<char> = Vec::new();
    let mut i: usize = 0;
    while i < v.len()
        invariant
            i <= v@.len(),
            r@ == v@.subrange(0, i as int),
        decreases v@.len() - i,
    {
        r.push(v[i]);
        i = i + 1;
    }
    proof {
        assert(r@ =~= v@);
    }
    r
}

/// Appends the characters of `src` to `dst`.
pub fn extend_chars(dst: &mut Vec<char>, src: &[char])
    ensures
        final(dst)@ == old(dst)@ + src@,
{
    let mut i: usize = 0;
    while i < src.len()
        invariant
            i <= src@.len(),
            dst@ == old(dst)@ + src@.subrange(0, i as int),
        decreases src@.len() - i,
    {
        proof {
            assert(old(dst)@ + src@.subrange(0, i as int + 1) =~= (old(dst)@ + src@.subrange(
                0,
                i as int,
            )).push(src@[i as int]));
        }
        dst.push(src[i]);
        i = i + 1;
    }
    proof {
        assert(src@.subrange(0, src@.len() as int) =~= src@);
    }
}

/// True exactly when the ASCII-lower-cased characters of `s` are `t`'s
/// characters.
pub fn eq_ignore_ascii_case(s: &str, t: &str) -> (r: bool)
    ensures
        r == (lower_seq(s@) == t@),
{
    let n = s.unicode_len();
    if n != t.unicode_len() {
        proof {
            assert(lower_seq(s@).len() == s@.len());
        }
        return false;
    }
    let mut i: usize = 0;
    while i < n
        invariant
            n == s@.len() && n == t@.len(),
            i <= n,
            forall|j: int| 0 <= j < i ==> lower_char(s@[j]) == t@[j],
        decreases n - i,
    {
        if char_to_lower(s.get_char(i)) != t.get_char(i) {
            proof {
                assert(lower_seq(s@)[i as int] != t@[i as int]);
            }
            return false;
        }
        i = i + 1;
    }
    proof {
        assert(lower_seq(s@) =~= t@);
    }
    true
}

/// True exactly when the two strings hold the same characters.
pub fn str_eq(a: &str, b: &str) -> (r: bool)
    ensures
        r == (a@ == b@),
{
    let n = a.unicode_len();
    if n != b.unicode_len() {
        return false;
    }
    let mut i: usize = 0;
    while i < n
        invariant
            n == a@.len() && n == b@.len(),
            i <= n,
            forall|j: int| 0 <= j < i ==> a@[j] == b@[j],
        decreases n - i,
    {
        if a.get_char(i) != b.get_char(i) {
            return false;
        }
        i = i + 1;
    }
    proof {
        assert(a@ =~= b@);
    }
    true
}

/// Lexicographic order on character sequences by code point, the order in
/// which completion candidates are listed.
pub open spec fn str_lt(a: Seq<char>, b: Seq<char>) -> bool
    decreases a.len(),
{
    if b.len() == 0 {
        false
    } else if a.len() == 0 {
        true
    } else if a[0] < b[0] {
        true
    } else if a[0] == b[0] {
        str_lt(a.skip(1), b.skip(1))
    } else {
        false
    }
}

/// Non-strict lexicographic order.
pub open spec fn str_le(a: Seq<char>, b: Seq<char>) -> bool {
    str_lt(a, b) || a == b
}

/// The lexicographic order is total.
pub proof fn lemma_str_lt_total(a: Seq<char>, b: Seq<char>)
    ensures
        str_lt(a, b) || str_lt(b, a) || a == b,
    decreases a.len(),
{
    if b.len() == 0 {
        if a.len() == 0 {
            assert(a =~= b);
        } else {
            assert(str_lt(b, a));
        }
    } else if a.len() == 0 {
    } else if a[0] == b[0] {
        lemma_str_lt_total(a.skip(1), b.skip(1));
        if a.skip(1) == b.skip(1) {
            assert(a =~= b) by {
                assert(a.skip(1).len() == a.len() - 1);
                assert(b.skip(1).len() == b.len() - 1);
                assert(a.len() == b.len());
                assert forall|i: int| 0 <= i < a.len() implies a[i] == b[i] by {
                    if i >= 1 {
                        assert(a.skip(1)[i - 1] == a[i]);
                        assert(b.skip(1)[i - 1] == b[i]);
                    }
                }
            }
        }
    }
}

/// An exec comparison deciding `str_lt` on two strings.
pub fn str_less(a: &str, b: &str) -> (r: bool)
    ensures
        r == str_lt(a@, b@),
{
    let an = a.unicode_len();
    let bn = b.unicode_len();
    let mut i: usize = 0;
    proof {
        assert(a@.skip(0) =~= a@);
        assert(b@.skip(0) =~= b@);
    }
    loop
        invariant
            an == a@.len() && bn == b@.len(),
            i <= an && i <= bn,
            str_lt(a@, b@) == str_lt(a@.skip(i as int), b@.skip(i as int)),
        decreases an - i,
    {
        if i == bn {
            proof {
                assert(b@.skip(i as int).len() == 0);
            }
            return false;
        }
        if i == an {
            proof {
                assert(a@.skip(i as int).len() == 0);
                assert(b@.skip(i as int).len() > 0);
            }
            return true;
        }
        let ca = a.get_char(i);
        let cb = b.get_char(i);
        proof {
            assert(a@.skip(i as int)[0] == a@[i as int]);
            assert(b@.skip(i as int)[0] == b@[i as int]);
        }
        if ca < cb {
            return true;
        }
        if ca != cb {
            return false;
        }
        proof {
            assert(a@.skip(i as int).skip(1) =~= a@.skip(i as int + 1));
            assert(b@.skip(i as int).skip(1) =~= b@.skip(i as int + 1));
        }
        i = i + 1;
    }
}

/// The given sequence is ordered: each element is at most the next.
pub open spec fn sorted_le(s: Seq<Seq<char>>) -> bool {
    forall|i: int| 0 <= i < s.len() - 1 ==> str_le(#[trigger] s[i], s[i + 1])
}

/// Sorts strings into the lexicographic order, keeping exactly the same
/// multiset of strings.
pub fn sort_strings(v: Vec<String>) -> (r: Vec<String>)
    ensures
        sorted_le(r.deep_view()),
        r.deep_view().to_multiset() == v.deep_view().to_multiset(),
{
    let mut rem = v;
    let mut out: Vec<String> = Vec::new();
    proof {
        broadcast use vstd::seq_lib::group_seq_properties;

        assert(out.deep_view().to_multiset() =~= Multiset::empty());
    }
    loop
        invariant
            sorted_le(out.deep_view()),
            out.deep_view().to_multiset().add(rem.deep_view().to_multiset())
                == v.deep_view().to_multiset(),
        decreases rem.len(),
    {
        let ghost pre_rem = rem.deep_view();
        let ghost pre_out = out.deep_view();
        match rem.pop() {
            None => {
                proof {
                    assert(rem.deep_view() =~= Seq::<Seq<char>>::empty());
                    pre_rem.to_multiset_ensures();
                    assert(rem.deep_view().to_multiset() =~= Multiset::empty());
                    assert(out.deep_view().to_multiset() =~= v.deep_view().to_multiset());
                }
                return out;
            },
            Some(x) => {
                proof {
                    assert(pre_rem =~= rem.deep_view().push(x@)) by {
                        assert forall|i: int|
                            0 <= i < pre_rem.len() implies pre_rem[i] == rem.deep_view().push(
                            x@,
                        )[i] by {}
                    }
                    rem.deep_view().to_multiset_ensures();
                    assert(pre_rem.to_multiset() =~= rem.deep_view().to_multiset().insert(x@));
                }
                let mut idx: usize = 0;
                loop
                    invariant_except_break
                        idx <= out.len(),
                        out.deep_view() == pre_out,
                        forall|j: int| 0 <= j < idx ==> !str_lt(x@, #[trigger] pre_out[j]),
                    ensures
                        idx <= out.len(),
                        out.deep_view() == pre_out,
                        forall|j: int| 0 <= j < idx ==> !str_lt(x@, #[trigger] pre_out[j]),
                        idx < out.len() ==> str_lt(x@, pre_out[idx as int]),
                    decreases out.len() - idx,
                {
                    if idx == out.len() {
                        break ;
                    }
                    let cmp = str_less(x.as_str(), out[idx].as_str());
                    proof {
                        assert(out.deep_view()[idx as int] == out@[idx as int]@);
                    }
                    if cmp {
                        break ;
                    }
                    idx = idx + 1;
                }
                let ghost mid_out = out.deep_view();
                let ghost xi = idx as int;
                let ghost inserted = mid_out.insert(xi, x@);
                out.insert(idx, x);
                proof {
                    assert(out.deep_view() =~= inserted);
                    assert(sorted_le(out.deep_view())) by {
                        assert forall|i: int|
                            0 <= i < inserted.len() - 1 implies str_le(
                            #[trigger] inserted[i],
                            inserted[i + 1],
                        ) by {
                            if i + 1 < xi {
                                assert(inserted[i] == mid_out[i]);
                                assert(inserted[i + 1] == mid_out[i + 1]);
                            } else if i + 1 == xi {
                                assert(inserted[i] == mid_out[i]);
                                assert(inserted[i + 1] == x@);
                                assert(!str_lt(x@, mid_out[i]));
                                lemma_str_lt_total(mid_out[i], x@);
                            } else if i == xi {
                                assert(inserted[i] == x@);
                                assert(inserted[i + 1] == mid_out[i]);
                                assert(str_lt(x@, mid_out[i]));
                            } else {
                                assert(inserted[i] == mid_out[i - 1]);
                                assert(inserted[i + 1] == mid_out[i]);
                            }
                        }
                    }
                    assert(out.deep_view().to_multiset() =~= mid_out.to_multiset().insert(x@)) by {
                        inserted.to_multiset_ensures();
                        assert(inserted.remove(xi) =~= mid_out);
                        assert(inserted[xi] == x@);
                        assert(inserted.remove(xi).to_multiset() =~= inserted.to_multiset().remove(
                            x@,
                        ));
                        inserted.to_multiset_ensures();
                        assert(inserted.to_multiset().contains(x@)) by {
                            assert(inserted.contains(x@)) by {
                                assert(inserted[xi] == x@);
                            }
                        }
                        assert(mid_out.to_multiset() =~= inserted.to_multiset().remove(x@));
                        assert(inserted.to_multiset() =~= inserted.to_multiset().remove(x@).insert(
                            x@,
                        ));
                    }
                    assert(out.deep_view().to_multiset().add(rem.deep_view().to_multiset())
                        =~= v.deep_view().to_multiset());
                }
            },
        }
    }
}

} // verus!
