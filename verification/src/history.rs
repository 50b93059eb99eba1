//! The history store: the ordered list of submitted lines, an append cursor
//! for incremental file sync, and the textual renderings that the `history`
//! builtin and the history file use.

use vstd::prelude::*;
use vstd::string::StrSliceExecFns;
use vstd::string::StringExecFns;

use crate::strutil::chars_of;
use crate::strutil::push_char;

verus! {

/// One line per entry, each terminated by a newline: the history-file text.
pub open spec fn joined(entries: Seq<Seq<char>>, start: int) -> Seq<char>
    decreases entries.len() - start,
{
    if start < 0 || start >= entries.len() {
        Seq::empty()
    } else {
        entries[start] + seq!['\n'] + joined(entries, start + 1)
    }
}

/// The character for one decimal digit.
pub open spec fn digit_char(d: nat) -> char {
    ((48 + (d % 10)) as u8) as char
}

/// The decimal rendering of a number.
pub open spec fn dec_str(n: nat) -> Seq<char>
    decreases n,
{
    if n < 10 {
        seq![digit_char(n)]
    } else {
        dec_str(n / 10).push(digit_char(n % 10))
    }
}

/// One numbered history line: a tab, the 1-based index, two spaces, the
/// entry, a newline.
pub open spec fn listing_line(entry: Seq<char>, index1: nat) -> Seq<char> {
    seq!['\t'] + dec_str(index1) + seq![' ', ' '] + entry + seq!['\n']
}

/// The numbered listing of the entries from `start` on.
pub open spec fn listing(entries: Seq<Seq<char>>, start: int) -> Seq<char>
    decreases entries.len() - start,
{
    if start < 0 || start >= entries.len() {
        Seq::empty()
    } else {
        listing_line(entries[start], (start + 1) as nat) + listing(entries, start + 1)
    }
}

/// A line as the history file yields it: without a trailing carriage return.
pub open spec fn strip_cr(l: Seq<char>) -> Seq<char> {
    if l.len() > 0 && l.last() == '\r' {
        l.drop_last()
    } else {
        l
    }
}

/// Splits text into lines at every newline, dropping each line's trailing
/// carriage return, with an unterminated non-empty last line kept.
pub open spec fn lines_acc(s: Seq<char>, cur: Seq<char>) -> Seq<Seq<char>>
    decreases s.len(),
{
    if s.len() == 0 {
        if cur.len() == 0 {
            Seq::empty()
        } else {
            seq![strip_cr(cur)]
        }
    } else if s[0] == '\n' {
        seq![strip_cr(cur)] + lines_acc(s.skip(1), Seq::empty())
    } else {
        lines_acc(s.skip(1), cur.push(s[0]))
    }
}

/// The entries read back from history-file text.
pub open spec fn lines_of(s: Seq<char>) -> Seq<Seq<char>> {
    lines_acc(s, Seq::empty())
}

/// Reading one written line back: scanning a newline-terminated line that
/// holds no newline and does not end in a carriage return yields it
/// verbatim.
proof fn lemma_lines_one(l: Seq<char>, t: Seq<char>, cur: Seq<char>)
    requires
        !l.contains('\n'),
        (cur + l).len() == 0 || (cur + l).last() != '\r',
    ensures
        lines_acc(l + seq!['\n'] + t, cur) == seq![cur + l] + lines_acc(t, Seq::empty()),
    decreases l.len(),
{
    let s = l + seq!['\n'] + t;
    if l.len() == 0 {
        assert(s[0] == '\n');
        assert(s.skip(1) =~= t);
        assert(cur + l =~= cur);
        assert(strip_cr(cur) == cur);
    } else {
        assert(l.contains(l[0])) by {
            assert(l[0] == l[0]);
        }
        assert(s[0] == l[0]);
        assert(s[0] != '\n');
        assert(s.skip(1) =~= l.skip(1) + seq!['\n'] + t);
        assert(!l.skip(1).contains('\n')) by {
            if l.skip(1).contains('\n') {
                let j = choose|j: int| 0 <= j < l.skip(1).len() && l.skip(1)[j] == '\n';
                assert(l[j + 1] == '\n');
                assert(l.contains(l[j + 1]));
            }
        }
        assert(cur.push(l[0]) + l.skip(1) =~= cur + l);
        lemma_lines_one(l.skip(1), t, cur.push(l[0]));
        assert(lines_acc(s, cur) == lines_acc(s.skip(1), cur.push(s[0])));
    }
}

/// Loading written entries back, from `start` on.
proof fn lemma_round_trip_from(entries: Seq<Seq<char>>, start: int)
    requires
        0 <= start <= entries.len(),
        forall|i: int|
            0 <= i < entries.len() ==> !(#[trigger] entries[i]).contains('\n') && (
            entries[i].len() == 0 || entries[i].last() != '\r'),
    ensures
        lines_acc(joined(entries, start), Seq::empty()) == entries.skip(start),
    decreases entries.len() - start,
{
    if start >= entries.len() {
        assert(joined(entries, start) =~= Seq::<char>::empty());
        assert(entries.skip(start) =~= Seq::<Seq<char>>::empty());
    } else {
        lemma_round_trip_from(entries, start + 1);
        assert(Seq::<char>::empty() + entries[start] =~= entries[start]);
        lemma_lines_one(entries[start], joined(entries, start + 1), Seq::empty());
        assert(entries.skip(start) =~= seq![entries[start]] + entries.skip(start + 1));
        assert(joined(entries, start) == entries[start] + seq!['\n'] + joined(entries, start + 1));
        assert(lines_acc(joined(entries, start), Seq::empty()) =~= entries.skip(start));
    }
}

/// Writing the whole history to a file and loading it back yields the same
/// ordered entries, for entries that hold no newline and do not end in a
/// carriage return.
pub proof fn lemma_history_round_trip(entries: Seq<Seq<char>>)
    requires
        forall|i: int|
            0 <= i < entries.len() ==> !(#[trigger] entries[i]).contains('\n') && (
            entries[i].len() == 0 || entries[i].last() != '\r'),
    ensures
        lines_of(joined(entries, 0)) == entries,
{
    lemma_round_trip_from(entries, 0);
    assert(entries.skip(0) =~= entries);
}

/// Appending in two flushes loses nothing: the text flushed while only the
/// first `mid` entries existed, followed by the text flushed for the rest,
/// is the text of one flush of everything from `start`.
pub proof fn lemma_joined_split(entries: Seq<Seq<char>>, start: int, mid: int)
    requires
        0 <= start <= mid <= entries.len(),
    ensures
        joined(entries.take(mid), start) + joined(entries, mid) == joined(entries, start),
    decreases mid - start,
{
    if start == mid {
        assert(joined(entries.take(mid), start) =~= Seq::<char>::empty());
        assert(Seq::<char>::empty() + joined(entries, mid) =~= joined(entries, mid));
    } else {
        lemma_joined_split(entries, start + 1, mid);
        assert(entries.take(mid)[start] == entries[start]);
        assert(joined(entries.take(mid), start) == entries[start] + seq!['\n'] + joined(
            entries.take(mid),
            start + 1,
        ));
        assert(joined(entries.take(mid), start) + joined(entries, mid) =~= joined(
            entries,
            start,
        ));
    }
}

/// The decimal rendering of a machine integer.
pub fn usize_to_string(n: usize) -> (r: String)
    ensures
        r@ == dec_str(n as nat),
    decreases n,
{
    if n < 10 {
        let mut s = String::new();
        push_char(&mut s, ((48 + (n as u8) % 10) as u8) as char);
        proof {
            assert(s@ =~= seq![digit_char(n as nat)]);
        }
        s
    } else {
        let mut s = usize_to_string(n / 10);
        push_char(&mut s, ((48 + ((n % 10) as u8)) as u8) as char);
        proof {
            assert((n % 10) as u8 % 10 == (n % 10) as u8);
            assert(s@ == dec_str((n / 10) as nat).push(digit_char((n % 10) as nat)));
        }
        s
    }
}

/// The in-memory history: submitted lines, oldest first, plus the count of
/// entries already flushed to the history file in append mode.
pub struct History {
    inputs: Vec<String>,
    last_append_index: usize,
}

impl History {
    /// The submitted lines, oldest first.
    pub closed spec fn entries(self) -> Seq<Seq<char>> {
        self.inputs.deep_view()
    }

    /// How many leading entries have been flushed in append mode.
    pub closed spec fn appended(self) -> nat {
        self.last_append_index as nat
    }

    /// The append cursor never passes the end.
    pub open spec fn wf(self) -> bool {
        self.appended() <= self.entries().len()
    }

    /// An empty history.
    pub fn new() -> (r: History)
        ensures
            r.wf(),
            r.entries() == Seq::<Seq<char>>::empty(),
            r.appended() == 0,
    {
        let r = History { inputs: Vec::new(), last_append_index: 0 };
        proof {
            assert(r.entries() =~= Seq::<Seq<char>>::empty());
        }
        r
    }

    /// Appends one submitted line.
    pub fn push(&mut self, input: String)
        requires
            old(self).wf(),
        ensures
            final(self).wf(),
            final(self).entries() == old(self).entries().push(input@),
            final(self).appended() == old(self).appended(),
    {
        let ghost pre = self.inputs.deep_view();
        self.inputs.push(input);
        proof {
            assert(self.inputs.deep_view() =~= pre.push(input@));
        }
    }

    /// The number of entries.
    pub fn len(&self) -> (r: usize)
        ensures
            r == self.entries().len(),
    {
        self.inputs.len()
    }

    /// The entry at a position.
    pub fn get(&self, i: usize) -> (r: &String)
        requires
            i < self.entries().len(),
        ensures
            r@ == self.entries()[i as int],
    {
        &self.inputs[i]
    }

    /// The most recent entry, if any.
    pub fn back(&self) -> (r: Option<&String>)
        ensures
            match r {
                Some(s) => self.entries().len() > 0 && s@ == self.entries().last(),
                None => self.entries().len() == 0,
            },
    {
        if self.inputs.len() == 0 {
            None
        } else {
            Some(&self.inputs[self.inputs.len() - 1])
        }
    }

    /// Concatenates another history's entries onto this one.
    pub fn merge(&mut self, other: History)
        requires
            old(self).wf(),
        ensures
            final(self).wf(),
            final(self).entries() == old(self).entries() + other.entries(),
            final(self).appended() == old(self).appended(),
    {
        let mut rhs = other.inputs;
        let ghost pre = self.inputs.deep_view();
        let ghost rhs_pre = rhs.deep_view();
        self.inputs.append(&mut rhs);
        proof {
            assert(self.inputs.deep_view() =~= pre + rhs_pre);
        }
    }

    /// The numbered listing of the last `limit` entries (all of them when
    /// there is no limit), as the `history` builtin prints it.
    pub fn write(&self, limit: Option<usize>) -> (r: String)
        ensures
            ({
                let n = self.entries().len();
                let shown = match limit {
                    Some(l) => if l < n {
                        l as int
                    } else {
                        n as int
                    },
                    None => n as int,
                };
                r@ == listing(self.entries(), n - shown)
            }),
    {
        let n = self.inputs.len();
        let start: usize = match limit {
            Some(l) => if l < n {
                n - l
            } else {
                0
            },
            None => 0,
        };
        self.render_listing_from(start)
    }

    /// The numbered listing of the entries from `start` on.
    fn render_listing_from(&self, start: usize) -> (r: String)
        requires
            start <= self.entries().len(),
        ensures
            r@ == listing(self.entries(), start as int),
    {
        let mut out = String::new();
        let mut i: usize = start;
        let n = self.inputs.len();
        proof {
            assert(out@ =~= Seq::<char>::empty());
        }
        while i < n
            invariant
                start <= i <= n,
            n == self.entries().len(),
                listing(self.entries(), start as int) == out@ + listing(
                    self.entries(),
                    i as int,
                ),
            decreases n - i,
        {
            push_char(&mut out, '\t');
            let num = usize_to_string(i + 1);
            out.append(num.as_str());
            push_char(&mut out, ' ');
            push_char(&mut out, ' ');
            out.append(self.inputs[i].as_str());
            push_char(&mut out, '\n');
            proof {
                assert(listing(self.entries(), i as int) == listing_line(
                    self.entries()[i as int],
                    (i + 1) as nat,
                ) + listing(self.entries(), i as int + 1));
                assert(out@ =~= (out@ + listing(self.entries(), i as int + 1)).take(
                    out@.len() as int,
                ));
            }
            i = i + 1;
        }
        proof {
            assert(listing(self.entries(), n as int) =~= Seq::<char>::empty());
            assert(out@ =~= out@ + listing(self.entries(), n as int));
        }
        out
    }

    /// The full history-file text: every entry, one per line.
    pub fn render_all(&self) -> (r: String)
        ensures
            r@ == joined(self.entries(), 0),
    {
        self.render_joined_from(0)
    }

    /// The history-file text of the entries not yet flushed, advancing the
    /// append cursor past them.
    pub fn take_unflushed(&mut self) -> (r: String)
        requires
            old(self).wf(),
        ensures
            final(self).wf(),
            final(self).entries() == old(self).entries(),
            final(self).appended() == old(self).entries().len(),
            r@ == joined(old(self).entries(), old(self).appended() as int),
    {
        let r = self.render_joined_from(self.last_append_index);
        self.last_append_index = self.inputs.len();
        r
    }

    /// The history-file text of the entries from `start` on.
    fn render_joined_from(&self, start: usize) -> (r: String)
        requires
            start <= self.entries().len(),
        ensures
            r@ == joined(self.entries(), start as int),
    {
        let mut out = String::new();
        let mut i: usize = start;
        let n = self.inputs.len();
        proof {
            assert(out@ =~= Seq::<char>::empty());
        }
        while i < n
            invariant
                start <= i <= n,
                n == self.entries().len(),
                joined(self.entries(), start as int) == out@ + joined(
                    self.entries(),
                    i as int,
                ),
            decreases n - i,
        {
            out.append(self.inputs[i].as_str());
            push_char(&mut out, '\n');
            proof {
                assert(joined(self.entries(), i as int) == self.entries()[i as int] + seq!['\n']
                    + joined(self.entries(), i as int + 1));
                assert(out@ =~= (out@ + joined(self.entries(), i as int + 1)).take(
                    out@.len() as int,
                ));
            }
            i = i + 1;
        }
        proof {
            assert(joined(self.entries(), n as int) =~= Seq::<char>::empty());
            assert(out@ =~= out@ + joined(self.entries(), n as int));
        }
        out
    }

    /// A history read back from history-file text.
    pub fn from_text(text: &str) -> (r: History)
        ensures
            r.wf(),
            r.entries() == lines_of(text@),
            r.appended() == 0,
    {
        let cs = chars_of(text);
        let mut inputs: Vec<String> = Vec::new();
        let mut cur: String = String::new();
        let mut i: usize = 0;
        proof {
            assert(cur@ =~= Seq::<char>::empty());
            assert(cs@.skip(0) =~= cs@);
            assert(inputs.deep_view() =~= Seq::<Seq<char>>::empty());
            assert(lines_of(text@) =~= inputs.deep_view() + lines_acc(cs@.skip(0), cur@));
        }
        while i < cs.len()
            invariant
                i <= cs@.len(),
                cs@ == text@,
                lines_of(text@) == inputs.deep_view() + lines_acc(cs@.skip(i as int), cur@),
            decreases cs@.len() - i,
        {
            let c = cs[i];
            proof {
                assert(cs@.skip(i as int)[0] == cs@[i as int]);
                assert(cs@.skip(i as int).skip(1) =~= cs@.skip(i as int + 1));
            }
            if c == '\n' {
                let line = Self::strip_trailing_cr(cur);
                let ghost pre = inputs.deep_view();
                inputs.push(line);
                cur = String::new();
                proof {
                    assert(inputs.deep_view() =~= pre.push(line@));
                    assert(cur@ =~= Seq::<char>::empty());
                    assert(inputs.deep_view() + lines_acc(cs@.skip(i as int + 1), cur@)
                        =~= pre + (seq![line@] + lines_acc(cs@.skip(i as int + 1), cur@)));
                }
            } else {
                push_char(&mut cur, c);
            }
            i = i + 1;
        }
        proof {
            assert(cs@.skip(cs@.len() as int) =~= Seq::<char>::empty());
        }
        if cur.as_str().unicode_len() > 0 {
            let line = Self::strip_trailing_cr(cur);
            let ghost pre = inputs.deep_view();
            inputs.push(line);
            proof {
                assert(inputs.deep_view() =~= pre.push(line@));
                assert(lines_of(text@) =~= inputs.deep_view());
            }
        } else {
            proof {
                assert(lines_of(text@) =~= inputs.deep_view());
            }
        }
        History { inputs, last_append_index: 0 }
    }

    /// Removes one trailing carriage return, as reading lines does.
    fn strip_trailing_cr(line: String) -> (r: String)
        ensures
            r@ == strip_cr(line@),
    {
        let n = line.as_str().unicode_len();
        if n > 0 && line.as_str().get_char(n - 1) == '\r' {
            let mut cs = chars_of(line.as_str());
            cs.pop();
            proof {
                assert(cs@ =~= line@.drop_last());
            }
            crate::strutil::string_of_chars(cs.as_slice())
        } else {
            line
        }
    }
}

} // verus!
