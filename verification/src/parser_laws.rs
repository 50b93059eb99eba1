//! How pipelines compose: a line made of two single-command lines joined by
//! `" | "` parses to exactly the two commands, in order.
//!
//! The scanners only ever look forward from their position, so their results
//! carry over between inputs whose tails agree. The lemmas here state that
//! carrying-over precisely: `..._shift` lemmas move a scan onto a longer or
//! shifted input, the `..._glue` lemmas walk a whole command across the
//! `" |"` seam, and `lemma_pipeline_concat` assembles the law.

use vstd::prelude::*;

use crate::parser::CommandV;
use crate::parser::ParseError;
use crate::parser::StepV;
use crate::parser::cmd_args;
use crate::parser::cmd_scan;
use crate::parser::digits_end;
use crate::parser::lemma_cmd_scan_stops;
use crate::parser::parse_spec;
use crate::parser::pipe_rest;
use crate::parser::skip_ws;
use crate::parser::sq_scan;
use crate::parser::dq_scan;
use crate::parser::step_scan;
use crate::parser::tok_scan;
use crate::parser::token_at;
use crate::strutil::is_digit;
use crate::strutil::is_space;

verus! {

/// The part of `cs1` from `i1` on is the beginning of the part of `cs2` from
/// `i2` on.
pub open spec fn tail_prefix(cs1: Seq<char>, i1: int, cs2: Seq<char>, i2: int) -> bool {
    &&& 0 <= i1 <= cs1.len()
    &&& 0 <= i2 <= cs2.len()
    &&& cs1.len() - i1 <= cs2.len() - i2
    &&& forall|k: int| 0 <= k < cs1.len() - i1 ==> cs1[i1 + k] == #[trigger] cs2[i2 + k]
}

/// Agreeing tails keep agreeing after both sides move the same distance.
proof fn lemma_tail_step(cs1: Seq<char>, i1: int, cs2: Seq<char>, i2: int, k: int)
    requires
        tail_prefix(cs1, i1, cs2, i2),
        0 <= k <= cs1.len() - i1,
    ensures
        tail_prefix(cs1, i1 + k, cs2, i2 + k),
{
    assert forall|j: int| 0 <= j < cs1.len() - (i1 + k) implies cs1[i1 + k + j] == #[trigger] cs2[
        i2 + k + j
    ] by {
        assert(cs1[i1 + (k + j)] == cs2[i2 + (k + j)]);
    }
}

/// A single-quote scan carries over to any input with an agreeing tail.
proof fn lemma_sq_shift(cs1: Seq<char>, i1: int, cs2: Seq<char>, i2: int, acc: Seq<char>)
    requires
        tail_prefix(cs1, i1, cs2, i2),
    ensures
        sq_scan(cs1, i1, acc) matches Ok(r) ==> sq_scan(cs2, i2, acc) == Ok::<
            (Seq<char>, int),
            ParseError,
        >((r.0, i2 + (r.1 - i1))),
    decreases cs1.len() - i1,
{
    if i1 < cs1.len() {
        assert(cs1[i1 + 0] == cs2[i2 + 0]);
        if cs1[i1] == '\'' {
        } else {
            lemma_tail_step(cs1, i1, cs2, i2, 1);
            lemma_sq_shift(cs1, i1 + 1, cs2, i2 + 1, acc.push(cs1[i1]));
        }
    }
}

/// A double-quote scan carries over to any input with an agreeing tail.
proof fn lemma_dq_shift(cs1: Seq<char>, i1: int, cs2: Seq<char>, i2: int, acc: Seq<char>)
    requires
        tail_prefix(cs1, i1, cs2, i2),
    ensures
        dq_scan(cs1, i1, acc) matches Ok(r) ==> dq_scan(cs2, i2, acc) == Ok::<
            (Seq<char>, int),
            ParseError,
        >((r.0, i2 + (r.1 - i1))),
    decreases cs1.len() - i1,
{
    if i1 < cs1.len() {
        assert(cs1[i1 + 0] == cs2[i2 + 0]);
        if cs1[i1] == '"' {
        } else if cs1[i1] == '\\' {
            if i1 + 1 < cs1.len() {
                assert(cs1[i1 + 1] == cs2[i2 + 1]);
                lemma_tail_step(cs1, i1, cs2, i2, 2);
                if cs1[i1 + 1] == '\\' || cs1[i1 + 1] == '$' || cs1[i1 + 1] == '"' {
                    lemma_dq_shift(cs1, i1 + 2, cs2, i2 + 2, acc.push(cs1[i1 + 1]));
                } else {
                    lemma_dq_shift(cs1, i1 + 2, cs2, i2 + 2, acc.push('\\').push(cs1[i1 + 1]));
                }
            }
        } else {
            lemma_tail_step(cs1, i1, cs2, i2, 1);
            lemma_dq_shift(cs1, i1 + 1, cs2, i2 + 1, acc.push(cs1[i1]));
        }
    }
}

/// The extension, if any, begins with a space right where `cs1` ends.
pub open spec fn ext_space(cs1: Seq<char>, i1: int, cs2: Seq<char>, i2: int) -> bool {
    cs2.len() - i2 > cs1.len() - i1 ==> cs2[i2 + (cs1.len() - i1)] == ' '
}

/// A token scan carries over: identically when it ended inside `cs1` or at a
/// matching end, and consuming one extra space when it ended at `cs1`'s end
/// and the extension begins with a space.
proof fn lemma_tok_shift(cs1: Seq<char>, i1: int, cs2: Seq<char>, i2: int, acc: Seq<char>)
    requires
        tail_prefix(cs1, i1, cs2, i2),
        ext_space(cs1, i1, cs2, i2),
    ensures
        tok_scan(cs1, i1, acc) matches Ok(r) ==> {
            ||| tok_scan(cs2, i2, acc) == Ok::<(Seq<char>, int), ParseError>(
                (r.0, i2 + (r.1 - i1)),
            )
            ||| (r.1 == cs1.len() && cs2.len() - i2 > cs1.len() - i1 && tok_scan(cs2, i2, acc)
                == Ok::<(Seq<char>, int), ParseError>((r.0, i2 + (r.1 - i1) + 1)))
        },
    decreases cs1.len() - i1,
{
    if i1 >= cs1.len() {
        if cs2.len() - i2 > 0 {
            assert(cs2[i2] == ' ');
            assert(is_space(cs2[i2]));
        }
    } else {
        assert(cs1[i1 + 0] == cs2[i2 + 0]);
        if is_space(cs1[i1]) {
        } else if cs1[i1] == '>' || cs1[i1] == '|' {
        } else if cs1[i1] == '\\' {
            if i1 + 1 < cs1.len() {
                assert(cs1[i1 + 1] == cs2[i2 + 1]);
                lemma_tail_step(cs1, i1, cs2, i2, 2);
                lemma_tok_shift(cs1, i1 + 2, cs2, i2 + 2, acc.push(cs1[i1 + 1]));
            }
        } else if cs1[i1] == '\'' {
            lemma_tail_step(cs1, i1, cs2, i2, 1);
            lemma_sq_shift(cs1, i1 + 1, cs2, i2 + 1, acc);
            if let Ok(r) = sq_scan(cs1, i1 + 1, acc) {
                crate::parser::lemma_sq_bounds(cs1, i1 + 1, acc);
                lemma_tail_step(cs1, i1, cs2, i2, r.1 - i1);
                lemma_tok_shift(cs1, r.1, cs2, i2 + (r.1 - i1), r.0);
            }
        } else if cs1[i1] == '"' {
            lemma_tail_step(cs1, i1, cs2, i2, 1);
            lemma_dq_shift(cs1, i1 + 1, cs2, i2 + 1, acc);
            if let Ok(r) = dq_scan(cs1, i1 + 1, acc) {
                crate::parser::lemma_dq_bounds(cs1, i1 + 1, acc);
                lemma_tail_step(cs1, i1, cs2, i2, r.1 - i1);
                lemma_tok_shift(cs1, r.1, cs2, i2 + (r.1 - i1), r.0);
            }
        } else {
            lemma_tail_step(cs1, i1, cs2, i2, 1);
            lemma_tok_shift(cs1, i1 + 1, cs2, i2 + 1, acc.push(cs1[i1]));
        }
    }
}

/// Everything skipped by `skip_ws` is whitespace, and it stops at the first
/// non-space character.
proof fn lemma_skip_ws_chars(cs: Seq<char>, i: int)
    requires
        0 <= i <= cs.len(),
    ensures
        i <= skip_ws(cs, i) <= cs.len(),
        forall|k: int| i <= k < skip_ws(cs, i) ==> is_space(#[trigger] cs[k]),
        skip_ws(cs, i) < cs.len() ==> !is_space(cs[skip_ws(cs, i)]),
    decreases cs.len() - i,
{
    if i < cs.len() && is_space(cs[i]) {
        lemma_skip_ws_chars(cs, i + 1);
    }
}

/// `skip_ws` lands exactly on a position whose run of predecessors is all
/// whitespace and which is not itself whitespace (or the end).
proof fn lemma_skip_ws_exact(cs: Seq<char>, i: int, j: int)
    requires
        0 <= i <= j <= cs.len(),
        forall|k: int| i <= k < j ==> is_space(#[trigger] cs[k]),
        j == cs.len() || !is_space(cs[j]),
    ensures
        skip_ws(cs, i) == j,
    decreases j - i,
{
    if i < j {
        lemma_skip_ws_exact(cs, i + 1, j);
    }
}

/// A digit run carries over when the extension starts with a space.
proof fn lemma_digits_shift(cs1: Seq<char>, i1: int, cs2: Seq<char>, i2: int)
    requires
        tail_prefix(cs1, i1, cs2, i2),
        ext_space(cs1, i1, cs2, i2),
    ensures
        digits_end(cs2, i2) == i2 + (digits_end(cs1, i1) - i1),
    decreases cs1.len() - i1,
{
    if i1 >= cs1.len() {
        if cs2.len() - i2 > 0 {
            assert(cs2[i2 + 0] == ' ');
            assert(!is_digit(cs2[i2]));
        }
    } else {
        assert(cs1[i1 + 0] == cs2[i2 + 0]);
        if is_digit(cs1[i1]) {
            lemma_tail_step(cs1, i1, cs2, i2, 1);
            lemma_digits_shift(cs1, i1 + 1, cs2, i2 + 1);
        }
    }
}

/// One argument-or-redirection step carries over, consuming one extra space
/// exactly when its token ran to `cs1`'s end.
proof fn lemma_step_shift(cs1: Seq<char>, i1: int, cs2: Seq<char>, i2: int)
    requires
        tail_prefix(cs1, i1, cs2, i2),
        ext_space(cs1, i1, cs2, i2),
        i1 < cs1.len(),
    ensures
        step_scan(cs1, i1) matches Ok(s) ==> match s {
            StepV::Arg(t, m) => {
                ||| step_scan(cs2, i2) == Ok::<StepV, ParseError>(StepV::Arg(t, i2 + (m - i1)))
                ||| (m == cs1.len() && cs2.len() - i2 > cs1.len() - i1 && step_scan(cs2, i2)
                    == Ok::<StepV, ParseError>(StepV::Arg(t, i2 + (m - i1) + 1)))
            },
            StepV::Redir(rv, m) => {
                ||| step_scan(cs2, i2) == Ok::<StepV, ParseError>(StepV::Redir(rv, i2 + (m - i1)))
                ||| (m == cs1.len() && cs2.len() - i2 > cs1.len() - i1 && step_scan(cs2, i2)
                    == Ok::<StepV, ParseError>(StepV::Redir(rv, i2 + (m - i1) + 1)))
            },
        },
{
    crate::parser::lemma_digits_bounds(cs1, i1);
    lemma_digits_shift(cs1, i1, cs2, i2);
    let j1 = digits_end(cs1, i1);
    let j2 = i2 + (j1 - i1);
    assert(cs1.subrange(i1, j1) =~= cs2.subrange(i2, j2)) by {
        assert forall|k: int| 0 <= k < j1 - i1 implies cs1.subrange(i1, j1)[k] == cs2.subrange(
            i2,
            j2,
        )[k] by {
            assert(cs1[i1 + k] == cs2[i2 + k]);
        }
    }
    if j1 < cs1.len() && cs1[j1] == '>' {
        assert(cs1[i1 + (j1 - i1)] == cs2[i2 + (j1 - i1)]);
        assert(cs2[j2] == '>');
        // the redirect mode: a second `>`
        let append1 = j1 + 1 < cs1.len() && cs1[j1 + 1] == '>';
        let append2 = j2 + 1 < cs2.len() && cs2[j2 + 1] == '>';
        assert(append1 == append2) by {
            if j1 + 1 < cs1.len() {
                assert(cs1[i1 + (j1 + 1 - i1)] == cs2[i2 + (j1 + 1 - i1)]);
            } else {
                if j2 + 1 < cs2.len() {
                    assert(cs2[i2 + (cs1.len() - i1)] == ' ');
                }
            }
        }
        let k1 = if append1 {
            j1 + 2
        } else {
            j1 + 1
        };
        let k2 = i2 + (k1 - i1);
        assert(k1 <= cs1.len());
        let amp1 = k1 < cs1.len() && cs1[k1] == '&';
        let amp2 = k2 < cs2.len() && cs2[k2] == '&';
        assert(amp1 == amp2) by {
            if k1 < cs1.len() {
                assert(cs1[i1 + (k1 - i1)] == cs2[i2 + (k1 - i1)]);
            } else {
                if k2 < cs2.len() {
                    assert(cs2[i2 + (cs1.len() - i1)] == ' ');
                }
            }
        }
        if amp1 {
            lemma_tail_step(cs1, i1, cs2, i2, k1 + 1 - i1);
            lemma_tok_shift(cs1, k1 + 1, cs2, k2 + 1, Seq::empty());
        } else {
            lemma_skip_ws_chars(cs1, k1);
            let w1 = skip_ws(cs1, k1);
            if w1 < cs1.len() {
                assert(skip_ws(cs2, k2) == i2 + (w1 - i1)) by {
                    assert forall|k: int| k2 <= k < i2 + (w1 - i1) implies is_space(
                        #[trigger] cs2[k],
                    ) by {
                        assert(cs1[i1 + (k - i2)] == cs2[i2 + (k - i2)]);
                        assert(is_space(cs1[k - i2 + i1]));
                    }
                    assert(cs1[i1 + (w1 - i1)] == cs2[i2 + (w1 - i1)]);
                    lemma_skip_ws_exact(cs2, k2, i2 + (w1 - i1));
                }
                lemma_tail_step(cs1, i1, cs2, i2, w1 - i1);
                lemma_tok_shift(cs1, w1, cs2, i2 + (w1 - i1), Seq::empty());
            }
        }
    } else {
        // no redirect begins here on either side
        assert(!(j2 < cs2.len() && cs2[j2] == '>')) by {
            if j1 < cs1.len() {
                assert(cs1[i1 + (j1 - i1)] == cs2[i2 + (j1 - i1)]);
            } else {
                if j2 < cs2.len() {
                    assert(cs2[i2 + (cs1.len() - i1)] == ' ');
                }
            }
        }
        lemma_tail_step(cs1, i1, cs2, i2, j1 - i1);
        assert(ext_space(cs1, j1, cs2, j2));
        lemma_tok_shift(cs1, j1, cs2, j2, cs1.subrange(i1, j1));
    }
}

/// A command's argument scan that ends exactly at `cs1`'s end carries over
/// the `" |"` seam: on the longer input it ends just before the `|`.
proof fn lemma_cmd_args_glue(cs1: Seq<char>, cs2: Seq<char>, i: int, cmd: CommandV, c: CommandV)
    requires
        0 <= i <= cs1.len(),
        cs1.len() + 2 <= cs2.len(),
        forall|k: int| 0 <= k < cs1.len() ==> cs1[k] == #[trigger] cs2[k],
        cs2[cs1.len() as int] == ' ',
        cs2[cs1.len() as int + 1] == '|',
        cmd_args(cs1, i, cmd) == Ok::<(CommandV, int), ParseError>((c, cs1.len() as int)),
    ensures
        cmd_args(cs2, i, cmd) == Ok::<(CommandV, int), ParseError>((c, cs1.len() as int + 1)),
    decreases cs1.len() - i,
{
    let n = cs1.len() as int;
    assert(tail_prefix(cs1, i, cs2, i)) by {
        assert forall|k: int| 0 <= k < cs1.len() - i implies cs1[i + k] == #[trigger] cs2[
            i + k
        ] by {
            assert(cs1[i + k] == cs2[i + k]);
        }
    }
    assert(ext_space(cs1, i, cs2, i));
    lemma_skip_ws_chars(cs1, i);
    let j1 = skip_ws(cs1, i);
    if j1 == n {
        // only whitespace remains: the scan on cs1 ends here
        assert(skip_ws(cs2, i) == n + 1) by {
            assert forall|k: int| i <= k < n + 1 implies is_space(#[trigger] cs2[k]) by {
                if k < n {
                    assert(cs1[k] == cs2[k]);
                } else {
                    assert(cs2[k] == ' ');
                }
            }
            assert(!is_space(cs2[n + 1]));
            lemma_skip_ws_exact(cs2, i, n + 1);
        }
        assert(cmd_args(cs2, i, cmd) == Ok::<(CommandV, int), ParseError>((cmd, n + 1)));
    } else {
        assert(skip_ws(cs2, i) == j1) by {
            assert forall|k: int| i <= k < j1 implies is_space(#[trigger] cs2[k]) by {
                assert(cs1[k] == cs2[k]);
            }
            assert(cs1[j1] == cs2[j1]);
            lemma_skip_ws_exact(cs2, i, j1);
        }
        assert(cs1[j1] == cs2[j1]);
        if cs1[j1] == '|' {
            // the scan on cs1 would end before its own end: impossible here
            assert(false);
        } else {
            lemma_tail_step(cs1, i, cs2, i, j1 - i);
            lemma_step_shift(cs1, j1, cs2, j1, );
            match step_scan(cs1, j1) {
                Err(_) => {
                    assert(false);
                },
                Ok(StepV::Arg(t, m)) => {
                    let cmd2 = CommandV { name: cmd.name, args: cmd.args.push(t), redirect: cmd.redirect };
                    crate::parser::lemma_step_bounds(cs1, j1);
                    if step_scan(cs2, j1) == Ok::<StepV, ParseError>(StepV::Arg(t, m)) {
                        lemma_cmd_args_glue(cs1, cs2, m, cmd2, c);
                    } else {
                        assert(m == n);
                        assert(cmd_args(cs1, n, cmd2) == Ok::<(CommandV, int), ParseError>(
                            (cmd2, n),
                        ));
                        assert(c == cmd2);
                        assert(skip_ws(cs2, n + 1) == n + 1) by {
                            lemma_skip_ws_exact(cs2, n + 1, n + 1);
                        }
                        assert(cmd_args(cs2, n + 1, cmd2) == Ok::<(CommandV, int), ParseError>(
                            (cmd2, n + 1),
                        ));
                    }
                },
                Ok(StepV::Redir(rv, m)) => {
                    let cmd2 = CommandV { name: cmd.name, args: cmd.args, redirect: Some(rv) };
                    crate::parser::lemma_step_bounds(cs1, j1);
                    if step_scan(cs2, j1) == Ok::<StepV, ParseError>(StepV::Redir(rv, m)) {
                        lemma_cmd_args_glue(cs1, cs2, m, cmd2, c);
                    } else {
                        assert(m == n);
                        assert(cmd_args(cs1, n, cmd2) == Ok::<(CommandV, int), ParseError>(
                            (cmd2, n),
                        ));
                        assert(c == cmd2);
                        assert(skip_ws(cs2, n + 1) == n + 1) by {
                            lemma_skip_ws_exact(cs2, n + 1, n + 1);
                        }
                        assert(cmd_args(cs2, n + 1, cmd2) == Ok::<(CommandV, int), ParseError>(
                            (cmd2, n + 1),
                        ));
                    }
                },
            }
        }
    }
}

/// A whole command scan that consumes all of `cs1` carries over the `" |"`
/// seam.
proof fn lemma_cmd_scan_glue(cs1: Seq<char>, cs2: Seq<char>, c: CommandV)
    requires
        cs1.len() + 2 <= cs2.len(),
        forall|k: int| 0 <= k < cs1.len() ==> cs1[k] == #[trigger] cs2[k],
        cs2[cs1.len() as int] == ' ',
        cs2[cs1.len() as int + 1] == '|',
        cmd_scan(cs1, 0) == Ok::<Option<(CommandV, int)>, ParseError>(
            Some((c, cs1.len() as int)),
        ),
    ensures
        cmd_scan(cs2, 0) == Ok::<Option<(CommandV, int)>, ParseError>(
            Some((c, cs1.len() as int + 1)),
        ),
{
    let n = cs1.len() as int;
    assert(tail_prefix(cs1, 0, cs2, 0)) by {
        assert forall|k: int| 0 <= k < cs1.len() implies cs1[0 + k] == #[trigger] cs2[0 + k] by {
            assert(cs1[k] == cs2[k]);
        }
    }
    assert(ext_space(cs1, 0, cs2, 0));
    lemma_skip_ws_chars(cs1, 0);
    let j1 = skip_ws(cs1, 0);
    assert(j1 < n);
    assert(skip_ws(cs2, 0) == j1) by {
        assert forall|k: int| 0 <= k < j1 implies is_space(#[trigger] cs2[k]) by {
            assert(cs1[k] == cs2[k]);
        }
        assert(cs1[j1] == cs2[j1]);
        lemma_skip_ws_exact(cs2, 0, j1);
    }
    lemma_tail_step(cs1, 0, cs2, 0, j1);
    lemma_tok_shift(cs1, j1, cs2, j1, Seq::empty());
    match token_at(cs1, j1, Seq::empty()) {
        Err(_) => {
            assert(false);
        },
        Ok(r) => {
            let base = CommandV { name: r.0, args: Seq::empty(), redirect: None };
            crate::parser::lemma_tok_bounds(cs1, j1, Seq::empty());
            if tok_scan(cs2, j1, Seq::empty()) == Ok::<(Seq<char>, int), ParseError>((r.0, r.1)) {
                assert(token_at(cs2, j1, Seq::empty()) == Ok::<(Seq<char>, int), ParseError>(
                    (r.0, r.1),
                ));
                lemma_cmd_args_glue(cs1, cs2, r.1, base, c);
            } else {
                assert(r.1 == n);
                assert(token_at(cs2, j1, Seq::empty()) == Ok::<(Seq<char>, int), ParseError>(
                    (r.0, n + 1),
                ));
                assert(cmd_args(cs1, n, base) == Ok::<(CommandV, int), ParseError>((base, n)));
                assert(c == base);
                assert(skip_ws(cs2, n + 1) == n + 1) by {
                    lemma_skip_ws_exact(cs2, n + 1, n + 1);
                }
                assert(cmd_args(cs2, n + 1, base) == Ok::<(CommandV, int), ParseError>(
                    (base, n + 1),
                ));
            }
        },
    }
}

/// The tails agree and have the same length.
pub open spec fn tails_equal(cs1: Seq<char>, i1: int, cs2: Seq<char>, i2: int) -> bool {
    tail_prefix(cs1, i1, cs2, i2) && cs1.len() - i1 == cs2.len() - i2
}

/// Skipping whitespace moves uniformly when the tails are equal.
proof fn lemma_skip_ws_offset(cs1: Seq<char>, i1: int, cs2: Seq<char>, i2: int)
    requires
        tails_equal(cs1, i1, cs2, i2),
    ensures
        skip_ws(cs2, i2) == i2 + (skip_ws(cs1, i1) - i1),
    decreases cs1.len() - i1,
{
    if i1 < cs1.len() {
        assert(cs1[i1 + 0] == cs2[i2 + 0]);
        if is_space(cs1[i1]) {
            lemma_tail_step(cs1, i1, cs2, i2, 1);
            lemma_skip_ws_offset(cs1, i1 + 1, cs2, i2 + 1);
        }
    }
}

/// A whole command scan moves uniformly when the tails are equal.
proof fn lemma_cmd_scan_offset(cs1: Seq<char>, i1: int, cs2: Seq<char>, i2: int)
    requires
        tails_equal(cs1, i1, cs2, i2),
    ensures
        cmd_scan(cs1, i1) matches Ok(Some(r)) ==> cmd_scan(cs2, i2) == Ok::<
            Option<(CommandV, int)>,
            ParseError,
        >(Some((r.0, i2 + (r.1 - i1)))),
{
    assert(ext_space(cs1, i1, cs2, i2));
    lemma_skip_ws_offset(cs1, i1, cs2, i2);
    lemma_skip_ws_chars(cs1, i1);
    let j1 = skip_ws(cs1, i1);
    if j1 < cs1.len() {
        lemma_tail_step(cs1, i1, cs2, i2, j1 - i1);
        lemma_tok_shift(cs1, j1, cs2, i2 + (j1 - i1), Seq::empty());
        match token_at(cs1, j1, Seq::empty()) {
            Err(_) => {},
            Ok(r) => {
                crate::parser::lemma_tok_bounds(cs1, j1, Seq::empty());
                let base = CommandV { name: r.0, args: Seq::empty(), redirect: None };
                lemma_tail_step(cs1, i1, cs2, i2, r.1 - i1);
                lemma_cmd_args_offset(cs1, r.1, cs2, i2 + (r.1 - i1), base);
            },
        }
    }
}

/// An argument scan moves uniformly when the tails are equal.
proof fn lemma_cmd_args_offset(cs1: Seq<char>, i1: int, cs2: Seq<char>, i2: int, cmd: CommandV)
    requires
        tails_equal(cs1, i1, cs2, i2),
    ensures
        cmd_args(cs1, i1, cmd) matches Ok(r) ==> cmd_args(cs2, i2, cmd) == Ok::<
            (CommandV, int),
            ParseError,
        >((r.0, i2 + (r.1 - i1))),
    decreases cs1.len() - i1,
{
    assert(ext_space(cs1, i1, cs2, i2));
    lemma_skip_ws_offset(cs1, i1, cs2, i2);
    lemma_skip_ws_chars(cs1, i1);
    let j1 = skip_ws(cs1, i1);
    let j2 = i2 + (j1 - i1);
    if j1 >= cs1.len() {
        assert(j2 >= cs2.len());
    } else {
        assert(cs1[i1 + (j1 - i1)] == cs2[i2 + (j1 - i1)]);
        assert(cs1[j1] == cs2[j2]);
        if cs1[j1] == '|' {
        } else {
            lemma_tail_step(cs1, i1, cs2, i2, j1 - i1);
            lemma_step_shift(cs1, j1, cs2, j2);
            match step_scan(cs1, j1) {
                Err(_) => {},
                Ok(StepV::Arg(t, m)) => {
                    crate::parser::lemma_step_bounds(cs1, j1);
                    let cmd2 = CommandV {
                        name: cmd.name,
                        args: cmd.args.push(t),
                        redirect: cmd.redirect,
                    };
                    lemma_tail_step(cs1, i1, cs2, i2, m - i1);
                    lemma_cmd_args_offset(cs1, m, cs2, i2 + (m - i1), cmd2);
                },
                Ok(StepV::Redir(rv, m)) => {
                    crate::parser::lemma_step_bounds(cs1, j1);
                    let cmd2 = CommandV { name: cmd.name, args: cmd.args, redirect: Some(rv) };
                    lemma_tail_step(cs1, i1, cs2, i2, m - i1);
                    lemma_cmd_args_offset(cs1, m, cs2, i2 + (m - i1), cmd2);
                },
            }
        }
    }
}

/// A non-empty pipeline tail keeps at least what it started with.
proof fn lemma_pipe_rest_len(cs: Seq<char>, i: int, acc: Seq<CommandV>)
    requires
        0 <= i,
    ensures
        pipe_rest(cs, i, acc) matches Ok(res) ==> res.len() >= acc.len(),
    decreases cs.len() - i,
{
    if 0 <= i < cs.len() && cs[i] == '|' {
        match cmd_scan(cs, i + 1) {
            Err(_) => {},
            Ok(None) => {},
            Ok(Some(r)) => {
                if i + 1 <= cs.len() {
                    lemma_cmd_scan_stops(cs, i + 1);
                    lemma_pipe_rest_len(cs, r.1, acc.push(r.0));
                }
            },
        }
    }
}

/// A line that parses to exactly one command is consumed whole by one
/// command scan.
proof fn lemma_single_pipeline(x: Seq<char>, c: CommandV)
    requires
        parse_spec(x) == Ok::<Seq<CommandV>, ParseError>(seq![c]),
    ensures
        cmd_scan(x, 0) == Ok::<Option<(CommandV, int)>, ParseError>(Some((c, x.len() as int))),
{
    match cmd_scan(x, 0) {
        Err(e) => {
            assert(parse_spec(x) == Err::<Seq<CommandV>, ParseError>(e));
        },
        Ok(None) => {
            assert(parse_spec(x) == Ok::<Seq<CommandV>, ParseError>(Seq::empty()));
            assert(Seq::<CommandV>::empty().len() == 0);
            assert(seq![c].len() == 1);
        },
        Ok(Some(r)) => {
            lemma_cmd_scan_stops(x, 0);
            assert(parse_spec(x) == pipe_rest(x, r.1, seq![r.0]));
            if r.1 < x.len() {
                assert(x[r.1] == '|');
                match cmd_scan(x, r.1 + 1) {
                    Err(_) => {},
                    Ok(None) => {},
                    Ok(Some(r2)) => {
                        lemma_cmd_scan_stops(x, r.1 + 1);
                        assert(pipe_rest(x, r.1, seq![r.0]) == pipe_rest(
                            x,
                            r2.1,
                            seq![r.0].push(r2.0),
                        ));
                        lemma_pipe_rest_len(x, r2.1, seq![r.0].push(r2.0));
                        assert(seq![r.0].push(r2.0).len() == 2);
                        assert(seq![c].len() == 1);
                    },
                }
                assert(false);
            }
            assert(pipe_rest(x, r.1, seq![r.0]) == Ok::<Seq<CommandV>, ParseError>(seq![r.0]));
            assert(seq![r.0] == seq![c]);
            assert(r.0 == c) by {
                assert(seq![r.0][0] == seq![c][0]);
            }
        },
    }
}

/// Pipelines partition the input losslessly: joining two lines that each
/// parse to a single command with `" | "` parses to exactly those two
/// commands, in order.
#[verifier::rlimit(100)]
#[verifier::spinoff_prover]
pub proof fn lemma_pipeline_concat(a: Seq<char>, b: Seq<char>, ca: CommandV, cb: CommandV)
    requires
        parse_spec(a) == Ok::<Seq<CommandV>, ParseError>(seq![ca]),
        parse_spec(b) == Ok::<Seq<CommandV>, ParseError>(seq![cb]),
    ensures
        parse_spec(a + seq![' ', '|', ' '] + b) == Ok::<Seq<CommandV>, ParseError>(seq![ca, cb]),
{
    let cs = a + seq![' ', '|', ' '] + b;
    let n = a.len() as int;
    assert(cs.len() == a.len() + 3 + b.len());
    assert(cs[n] == ' ' && cs[n + 1] == '|' && cs[n + 2] == ' ');
    assert(forall|k: int| 0 <= k < a.len() ==> a[k] == #[trigger] cs[k]);
    assert(forall|k: int| 0 <= k < b.len() ==> b[k] == #[trigger] cs[n + 3 + k]);

    // the first line is one command consuming all of `a`
    lemma_single_pipeline(a, ca);

    // so the command scan crosses the seam and stops before the `|`
    lemma_cmd_scan_glue(a, cs, ca);
    assert(cmd_scan(cs, 0) == Ok::<Option<(CommandV, int)>, ParseError>(Some((ca, n + 1))));

    // the second line is one command consuming all of `b`
    lemma_single_pipeline(b, cb);

    // the tail after the `|` is the second command, consuming everything
    let gb = seq![' '] + b;
    assert(tails_equal(b, 0, gb, 1)) by {
        assert forall|k: int| 0 <= k < b.len() - 0 implies b[0 + k] == #[trigger] gb[1 + k] by {
            assert(gb[1 + k] == b[k]);
        }
    }
    lemma_cmd_scan_offset(b, 0, gb, 1);
    assert(cmd_scan(gb, 1) == Ok::<Option<(CommandV, int)>, ParseError>(
        Some((cb, 1 + b.len() as int)),
    ));
    assert(cmd_scan(gb, 0) == cmd_scan(gb, 1)) by {
        assert(gb[0] == ' ');
        assert(skip_ws(gb, 0) == skip_ws(gb, 1));
    }
    assert(tails_equal(gb, 0, cs, n + 2)) by {
        assert forall|k: int| 0 <= k < gb.len() - 0 implies gb[0 + k] == #[trigger] cs[
            n + 2 + k
        ] by {
            if k == 0 {
                assert(cs[n + 2] == ' ');
                assert(gb[0] == ' ');
            } else {
                assert(gb[k] == b[k - 1]);
                assert(cs[n + 3 + (k - 1)] == b[k - 1]);
            }
        }
    }
    lemma_cmd_scan_offset(gb, 0, cs, n + 2);
    assert(cmd_scan(cs, n + 2) == Ok::<Option<(CommandV, int)>, ParseError>(
        Some((cb, cs.len() as int)),
    ));

    // assemble the pipeline
    assert(parse_spec(cs) == pipe_rest(cs, n + 1, seq![ca]));
    assert(pipe_rest(cs, n + 1, seq![ca]) == pipe_rest(cs, cs.len() as int, seq![ca, cb])) by {
        assert(cs[n + 1] == '|');
        assert(seq![ca].push(cb) =~= seq![ca, cb]);
    }
    assert(pipe_rest(cs, cs.len() as int, seq![ca, cb]) == Ok::<Seq<CommandV>, ParseError>(
        seq![ca, cb],
    ));
}

} // verus!
