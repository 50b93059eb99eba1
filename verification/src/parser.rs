//! The command-line parser: one input line becomes a pipeline of commands
//! with arguments and redirections, honouring the quoting rules.
//!
//! The whole grammar is written down as spec functions over the input's
//! characters (`sq_scan`, `dq_scan`, `tok_scan`, `step_scan`, `cmd_scan`,
//! `parse_spec`), and the executable parser is proved to return exactly what
//! those functions say, errors included.

use vstd::prelude::*;

use vstd::string::StrSliceExecFns;

use crate::strutil::char_is_digit;
use crate::strutil::char_is_space;
use crate::strutil::chars_of;
use crate::strutil::is_digit;
use crate::strutil::is_space;

verus! {

/// A source or target stream descriptor.
#[derive(Clone, Copy, Debug, PartialEq, Eq)]
pub enum Fd {
    Stdin,
    Stdout,
    Stderr,
    Other(i32),
}

/// Where a redirection sends the stream.
#[derive(Debug, PartialEq, Eq)]
pub enum RedirectTo {
    File(String),
    Fd(Fd),
}

/// Whether the target file is truncated or appended to.
#[derive(Clone, Copy, Debug, PartialEq, Eq)]
pub enum RedirectType {
    Normal,
    Append,
}

/// One redirection: source descriptor, mode, and target.
#[derive(Debug, PartialEq, Eq)]
pub struct Redirect {
    pub r_type: RedirectType,
    pub from: Fd,
    pub to: RedirectTo,
}

/// One parsed command: its name, arguments, and optional redirection.
#[derive(Debug, PartialEq, Eq)]
pub struct Command {
    pub name: String,
    pub args: Vec<String>,
    pub redirect: Option<Redirect>,
}

/// Why a line was rejected.
#[derive(Clone, Copy, Debug, PartialEq, Eq)]
pub enum ParseError {
    /// A token was required but the input ended.
    ExpectedString,
    /// A `'` span never closed.
    UnclosedSingleQuote,
    /// A `"` span never closed.
    UnclosedDoubleQuote,
    /// A `\` stood at the end of the input.
    DanglingEscape,
    /// An unquoted `>` stood inside a token.
    RedirectInToken,
    /// An unquoted `|` stood inside a token.
    PipeInToken,
    /// A descriptor was not a number an `i32` can hold.
    BadDescriptor,
    /// A `|` was followed by no command.
    MissingCommand,
}

/// Ghost image of a redirection target.
pub ghost enum RedirectToV {
    File(Seq<char>),
    Fd(Fd),
}

/// Ghost image of a redirection.
pub ghost struct RedirectV {
    pub r_type: RedirectType,
    pub from: Fd,
    pub to: RedirectToV,
}

/// Ghost image of a parsed command.
pub ghost struct CommandV {
    pub name: Seq<char>,
    pub args: Seq<Seq<char>>,
    pub redirect: Option<RedirectV>,
}

impl View for RedirectTo {
    type V = RedirectToV;

    open spec fn view(&self) -> RedirectToV {
        match self {
            RedirectTo::File(s) => RedirectToV::File(s@),
            RedirectTo::Fd(fd) => RedirectToV::Fd(*fd),
        }
    }
}

impl View for Redirect {
    type V = RedirectV;

    open spec fn view(&self) -> RedirectV {
        RedirectV { r_type: self.r_type, from: self.from, to: self.to@ }
    }
}

impl View for Command {
    type V = CommandV;

    open spec fn view(&self) -> CommandV {
        CommandV {
            name: self.name@,
            args: self.args.deep_view(),
            redirect: match self.redirect {
                Some(r) => Some(r@),
                None => None,
            },
        }
    }
}

/// Ghost image of an optional redirection.
pub open spec fn opt_redirect_view(o: Option<Redirect>) -> Option<RedirectV> {
    match o {
        Some(r) => Some(r@),
        None => None,
    }
}

/// Scans a single-quoted span: everything until the closing quote, verbatim.
pub open spec fn sq_scan(cs: Seq<char>, i: int, acc: Seq<char>) -> Result<
    (Seq<char>, int),
    ParseError,
>
    decreases cs.len() - i,
{
    if i < 0 || i >= cs.len() {
        Err(ParseError::UnclosedSingleQuote)
    } else if cs[i] == '\'' {
        Ok((acc, i + 1))
    } else {
        sq_scan(cs, i + 1, acc.push(cs[i]))
    }
}

/// Scans a double-quoted span: `\` escapes `\`, `$` and `"`; before any other
/// character both are kept.
pub open spec fn dq_scan(cs: Seq<char>, i: int, acc: Seq<char>) -> Result<
    (Seq<char>, int),
    ParseError,
>
    decreases cs.len() - i,
{
    if i < 0 || i >= cs.len() {
        Err(ParseError::UnclosedDoubleQuote)
    } else if cs[i] == '"' {
        Ok((acc, i + 1))
    } else if cs[i] == '\\' {
        if i + 1 >= cs.len() {
            Err(ParseError::DanglingEscape)
        } else if cs[i + 1] == '\\' || cs[i + 1] == '$' || cs[i + 1] == '"' {
            dq_scan(cs, i + 2, acc.push(cs[i + 1]))
        } else {
            dq_scan(cs, i + 2, acc.push('\\').push(cs[i + 1]))
        }
    } else {
        dq_scan(cs, i + 1, acc.push(cs[i]))
    }
}

/// A successful single-quote scan moves forward and stays in bounds.
pub proof fn lemma_sq_bounds(cs: Seq<char>, i: int, acc: Seq<char>)
    requires
        0 <= i,
    ensures
        sq_scan(cs, i, acc) matches Ok(r) ==> i < r.1 <= cs.len(),
    decreases cs.len() - i,
{
    if i < cs.len() && cs[i] != '\'' {
        lemma_sq_bounds(cs, i + 1, acc.push(cs[i]));
    }
}

/// A successful double-quote scan moves forward and stays in bounds.
pub proof fn lemma_dq_bounds(cs: Seq<char>, i: int, acc: Seq<char>)
    requires
        0 <= i,
    ensures
        dq_scan(cs, i, acc) matches Ok(r) ==> i < r.1 <= cs.len(),
    decreases cs.len() - i,
{
    if 0 <= i < cs.len() {
        if cs[i] == '"' {
        } else if cs[i] == '\\' {
            if i + 1 < cs.len() {
                if cs[i + 1] == '\\' || cs[i + 1] == '$' || cs[i + 1] == '"' {
                    lemma_dq_bounds(cs, i + 2, acc.push(cs[i + 1]));
                } else {
                    lemma_dq_bounds(cs, i + 2, acc.push('\\').push(cs[i + 1]));
                }
            }
        } else {
            lemma_dq_bounds(cs, i + 1, acc.push(cs[i]));
        }
    }
}

/// Scans one unquoted token, quotes and escapes included, ending at
/// whitespace or at the end of the input.
pub open spec fn tok_scan(cs: Seq<char>, i: int, acc: Seq<char>) -> Result<
    (Seq<char>, int),
    ParseError,
>
    decreases cs.len() - i,
    via tok_scan_dec
{
    if i < 0 || i >= cs.len() {
        Ok((acc, i))
    } else if is_space(cs[i]) {
        Ok((acc, i + 1))
    } else if cs[i] == '>' {
        Err(ParseError::RedirectInToken)
    } else if cs[i] == '|' {
        Err(ParseError::PipeInToken)
    } else if cs[i] == '\\' {
        if i + 1 >= cs.len() {
            Err(ParseError::DanglingEscape)
        } else {
            tok_scan(cs, i + 2, acc.push(cs[i + 1]))
        }
    } else if cs[i] == '\'' {
        match sq_scan(cs, i + 1, acc) {
            Ok(r) => tok_scan(cs, r.1, r.0),
            Err(e) => Err(e),
        }
    } else if cs[i] == '"' {
        match dq_scan(cs, i + 1, acc) {
            Ok(r) => tok_scan(cs, r.1, r.0),
            Err(e) => Err(e),
        }
    } else {
        tok_scan(cs, i + 1, acc.push(cs[i]))
    }
}

#[via_fn]
proof fn tok_scan_dec(cs: Seq<char>, i: int, acc: Seq<char>) {
    if 0 <= i < cs.len() {
        if cs[i] == '\'' {
            lemma_sq_bounds(cs, i + 1, acc);
        } else if cs[i] == '"' {
            lemma_dq_bounds(cs, i + 1, acc);
        }
    }
}

/// A successful token scan moves forward (when input remains) and stays in
/// bounds.
pub proof fn lemma_tok_bounds(cs: Seq<char>, i: int, acc: Seq<char>)
    requires
        0 <= i,
    ensures
        tok_scan(cs, i, acc) matches Ok(r) ==> i <= r.1 <= cs.len() || r.1 == i,
        i < cs.len() ==> (tok_scan(cs, i, acc) matches Ok(r) ==> i < r.1 <= cs.len()),
    decreases cs.len() - i,
{
    if 0 <= i < cs.len() {
        if is_space(cs[i]) {
        } else if cs[i] == '>' || cs[i] == '|' {
        } else if cs[i] == '\\' {
            if i + 1 < cs.len() {
                lemma_tok_bounds(cs, i + 2, acc.push(cs[i + 1]));
            }
        } else if cs[i] == '\'' {
            lemma_sq_bounds(cs, i + 1, acc);
            if let Ok(r) = sq_scan(cs, i + 1, acc) {
                lemma_tok_bounds(cs, r.1, r.0);
            }
        } else if cs[i] == '"' {
            lemma_dq_bounds(cs, i + 1, acc);
            if let Ok(r) = dq_scan(cs, i + 1, acc) {
                lemma_tok_bounds(cs, r.1, r.0);
            }
        } else {
            lemma_tok_bounds(cs, i + 1, acc.push(cs[i]));
        }
    }
}

/// A token scan where a token is mandatory: the end of the input is only
/// acceptable when something has accumulated already.
pub open spec fn token_at(cs: Seq<char>, i: int, acc: Seq<char>) -> Result<
    (Seq<char>, int),
    ParseError,
> {
    if i >= cs.len() && acc.len() == 0 {
        Err(ParseError::ExpectedString)
    } else {
        tok_scan(cs, i, acc)
    }
}

/// The position after the run of whitespace starting at `i`.
pub open spec fn skip_ws(cs: Seq<char>, i: int) -> int
    decreases cs.len() - i,
{
    if 0 <= i < cs.len() && is_space(cs[i]) {
        skip_ws(cs, i + 1)
    } else {
        i
    }
}

/// Skipping whitespace stays in bounds.
pub proof fn lemma_skip_ws_bounds(cs: Seq<char>, i: int)
    requires
        0 <= i <= cs.len(),
    ensures
        i <= skip_ws(cs, i) <= cs.len(),
    decreases cs.len() - i,
{
    if 0 <= i < cs.len() && is_space(cs[i]) {
        lemma_skip_ws_bounds(cs, i + 1);
    }
}

/// The position after the run of decimal digits starting at `i`.
pub open spec fn digits_end(cs: Seq<char>, i: int) -> int
    decreases cs.len() - i,
{
    if 0 <= i < cs.len() && is_digit(cs[i]) {
        digits_end(cs, i + 1)
    } else {
        i
    }
}

/// Scanning digits stays in bounds.
pub proof fn lemma_digits_bounds(cs: Seq<char>, i: int)
    requires
        0 <= i <= cs.len(),
    ensures
        i <= digits_end(cs, i) <= cs.len(),
    decreases cs.len() - i,
{
    if 0 <= i < cs.len() && is_digit(cs[i]) {
        lemma_digits_bounds(cs, i + 1);
    }
}

/// All characters are decimal digits.
pub open spec fn all_digits(ds: Seq<char>) -> bool {
    forall|j: int| 0 <= j < ds.len() ==> is_digit(#[trigger] ds[j])
}

/// The value of a digit string, most significant digit first.
pub open spec fn digits_val(ds: Seq<char>) -> int
    decreases ds.len(),
{
    if ds.len() == 0 {
        0
    } else {
        digits_val(ds.drop_last()) * 10 + ((ds.last() as u32) - 48)
    }
}

/// What `i32` parsing makes of a token: an optional sign, then digits, with
/// the value fitting the type.
pub open spec fn i32_of_text(s: Seq<char>) -> Option<int> {
    let signed = s.len() > 0 && (s[0] == '+' || s[0] == '-');
    let neg = s.len() > 0 && s[0] == '-';
    let ds = if signed {
        s.skip(1)
    } else {
        s
    };
    if ds.len() == 0 || !all_digits(ds) {
        None
    } else {
        let v = if neg {
            -digits_val(ds)
        } else {
            digits_val(ds)
        };
        if i32::MIN <= v <= i32::MAX {
            Some(v)
        } else {
            None
        }
    }
}

/// What descriptor a token denotes: empty means standard output, `1` and `2`
/// name the standard streams, any other `i32` is kept as a number.
pub open spec fn fd_spec(s: Seq<char>) -> Option<Fd> {
    if s.len() == 0 {
        Some(Fd::Stdout)
    } else {
        match i32_of_text(s) {
            None => None,
            Some(v) => Some(
                if v == 1 {
                    Fd::Stdout
                } else if v == 2 {
                    Fd::Stderr
                } else {
                    Fd::Other(v as i32)
                },
            ),
        }
    }
}

/// Scans a redirection whose digit run starts at `i`: digits, `>`, an
/// optional second `>`, then either `&` and a descriptor token or a
/// whitespace-separated file token.
pub open spec fn redir_scan(cs: Seq<char>, i: int) -> Result<(RedirectV, int), ParseError> {
    let j = digits_end(cs, i);
    match fd_spec(cs.subrange(i, j)) {
        None => Err(ParseError::BadDescriptor),
        Some(from) => {
            let append = j + 1 < cs.len() && cs[j + 1] == '>';
            let rt = if append {
                RedirectType::Append
            } else {
                RedirectType::Normal
            };
            let k = if append {
                j + 2
            } else {
                j + 1
            };
            if k < cs.len() && cs[k] == '&' {
                match token_at(cs, k + 1, Seq::empty()) {
                    Err(e) => Err(e),
                    Ok(r) => match fd_spec(r.0) {
                        None => Err(ParseError::BadDescriptor),
                        Some(fd) => Ok(
                            (RedirectV { r_type: rt, from, to: RedirectToV::Fd(fd) }, r.1),
                        ),
                    },
                }
            } else {
                let k2 = skip_ws(cs, k);
                match token_at(cs, k2, Seq::empty()) {
                    Err(e) => Err(e),
                    Ok(r) => Ok((RedirectV { r_type: rt, from, to: RedirectToV::File(r.0) }, r.1)),
                }
            }
        },
    }
}

/// One argument-position step: a redirection when the digit run is followed
/// by `>`, otherwise a plain token that keeps the digits already read.
pub ghost enum StepV {
    Arg(Seq<char>, int),
    Redir(RedirectV, int),
}

/// Scans one argument or redirection starting at `i`.
pub open spec fn step_scan(cs: Seq<char>, i: int) -> Result<StepV, ParseError> {
    let j = digits_end(cs, i);
    if j < cs.len() && cs[j] == '>' {
        match redir_scan(cs, i) {
            Err(e) => Err(e),
            Ok(r) => Ok(StepV::Redir(r.0, r.1)),
        }
    } else {
        match token_at(cs, j, cs.subrange(i, j)) {
            Err(e) => Err(e),
            Ok(r) => Ok(StepV::Arg(r.0, r.1)),
        }
    }
}

/// A successful step moves forward and stays in bounds.
pub proof fn lemma_step_bounds(cs: Seq<char>, i: int)
    requires
        0 <= i < cs.len(),
    ensures
        step_scan(cs, i) matches Ok(StepV::Arg(t, m)) ==> i < m <= cs.len(),
        step_scan(cs, i) matches Ok(StepV::Redir(r, m)) ==> i < m <= cs.len(),
{
    lemma_digits_bounds(cs, i);
    let j = digits_end(cs, i);
    if j < cs.len() && cs[j] == '>' {
        let append = j + 1 < cs.len() && cs[j + 1] == '>';
        let k = if append {
            j + 2
        } else {
            j + 1
        };
        if k < cs.len() && cs[k] == '&' {
            lemma_tok_bounds(cs, k + 1, Seq::empty());
        } else if k <= cs.len() {
            lemma_skip_ws_bounds(cs, k);
            lemma_tok_bounds(cs, skip_ws(cs, k), Seq::empty());
        } else {
            assert(k == cs.len() + 1);
            assert(skip_ws(cs, k) == k);
            assert(token_at(cs, k, Seq::empty()) == Err::<(Seq<char>, int), ParseError>(
                ParseError::ExpectedString,
            ));
        }
    } else {
        if j == i {
            lemma_tok_bounds(cs, j, cs.subrange(i, j));
        } else {
            lemma_tok_bounds(cs, j, cs.subrange(i, j));
            lemma_digits_bounds(cs, i);
        }
    }
}

/// Scans the arguments and redirections of one command, stopping at the end
/// of the input or before `|`.
pub open spec fn cmd_args(cs: Seq<char>, i: int, cmd: CommandV) -> Result<
    (CommandV, int),
    ParseError,
>
    decreases cs.len() - i,
    via cmd_args_dec
{
    let j = skip_ws(cs, i);
    if j < 0 || j >= cs.len() {
        Ok((cmd, j))
    } else if cs[j] == '|' {
        Ok((cmd, j))
    } else {
        match step_scan(cs, j) {
            Err(e) => Err(e),
            Ok(StepV::Arg(t, m)) => cmd_args(
                cs,
                m,
                CommandV { name: cmd.name, args: cmd.args.push(t), redirect: cmd.redirect },
            ),
            Ok(StepV::Redir(r, m)) => cmd_args(
                cs,
                m,
                CommandV { name: cmd.name, args: cmd.args, redirect: Some(r) },
            ),
        }
    }
}

#[via_fn]
proof fn cmd_args_dec(cs: Seq<char>, i: int, cmd: CommandV) {
    let j = skip_ws(cs, i);
    if 0 <= i <= cs.len() {
        lemma_skip_ws_bounds(cs, i);
        if 0 <= j < cs.len() && cs[j] != '|' {
            lemma_step_bounds(cs, j);
        }
    } else {
        if i < 0 {
            assert(skip_ws(cs, i) == i);
        } else {
            assert(skip_ws(cs, i) == i);
        }
    }
}

/// The argument scan stops only at the end of the input or before `|`, never
/// earlier, and moves forward.
pub proof fn lemma_cmd_args_stops(cs: Seq<char>, i: int, cmd: CommandV)
    requires
        0 <= i <= cs.len(),
    ensures
        cmd_args(cs, i, cmd) matches Ok(r) ==> i <= r.1 <= cs.len() && (r.1 == cs.len() || cs[r.1]
            == '|'),
    decreases cs.len() - i,
{
    lemma_skip_ws_bounds(cs, i);
    let j = skip_ws(cs, i);
    if j < cs.len() && cs[j] != '|' {
        lemma_step_bounds(cs, j);
        match step_scan(cs, j) {
            Err(_) => {},
            Ok(StepV::Arg(t, m)) => {
                lemma_cmd_args_stops(
                    cs,
                    m,
                    CommandV { name: cmd.name, args: cmd.args.push(t), redirect: cmd.redirect },
                );
            },
            Ok(StepV::Redir(r, m)) => {
                lemma_cmd_args_stops(
                    cs,
                    m,
                    CommandV { name: cmd.name, args: cmd.args, redirect: Some(r) },
                );
            },
        }
    }
}

/// Scans one command: leading whitespace, a name, then arguments and
/// redirections. `None` when only whitespace remains.
pub open spec fn cmd_scan(cs: Seq<char>, i: int) -> Result<Option<(CommandV, int)>, ParseError> {
    let j = skip_ws(cs, i);
    if j >= cs.len() {
        Ok(None)
    } else {
        match token_at(cs, j, Seq::empty()) {
            Err(e) => Err(e),
            Ok(r) => match cmd_args(
                cs,
                r.1,
                CommandV { name: r.0, args: Seq::empty(), redirect: None },
            ) {
                Err(e) => Err(e),
                Ok(c) => Ok(Some((c.0, c.1))),
            },
        }
    }
}

/// A successful command scan stops at the end of the input or before `|`.
pub proof fn lemma_cmd_scan_stops(cs: Seq<char>, i: int)
    requires
        0 <= i <= cs.len(),
    ensures
        cmd_scan(cs, i) matches Ok(Some(r)) ==> i <= r.1 <= cs.len() && (r.1 == cs.len()
            || cs[r.1] == '|'),
{
    lemma_skip_ws_bounds(cs, i);
    let j = skip_ws(cs, i);
    if j < cs.len() {
        lemma_tok_bounds(cs, j, Seq::empty());
        if let Ok(r) = token_at(cs, j, Seq::empty()) {
            lemma_cmd_args_stops(
                cs,
                r.1,
                CommandV { name: r.0, args: Seq::empty(), redirect: None },
            );
        }
    }
}

/// Scans the `| command` tail of a pipeline.
pub open spec fn pipe_rest(cs: Seq<char>, i: int, acc: Seq<CommandV>) -> Result<
    Seq<CommandV>,
    ParseError,
>
    decreases cs.len() - i,
    via pipe_rest_dec
{
    if i < 0 || i >= cs.len() {
        Ok(acc)
    } else if cs[i] == '|' {
        match cmd_scan(cs, i + 1) {
            Err(e) => Err(e),
            Ok(None) => Err(ParseError::MissingCommand),
            Ok(Some(r)) => pipe_rest(cs, r.1, acc.push(r.0)),
        }
    } else {
        Err(ParseError::MissingCommand)
    }
}

#[via_fn]
proof fn pipe_rest_dec(cs: Seq<char>, i: int, acc: Seq<CommandV>) {
    if 0 <= i < cs.len() && cs[i] == '|' {
        lemma_cmd_scan_stops(cs, i + 1);
    }
}

/// The whole line: a possibly empty pipeline of commands.
pub open spec fn parse_spec(cs: Seq<char>) -> Result<Seq<CommandV>, ParseError> {
    match cmd_scan(cs, 0) {
        Err(e) => Err(e),
        Ok(None) => Ok(Seq::empty()),
        Ok(Some(r)) => pipe_rest(cs, r.1, seq![r.0]),
    }
}

/// A single-quoted span scans to exactly its contents.
proof fn lemma_sq_verbatim(cs: Seq<char>, i: int, x: Seq<char>, acc: Seq<char>)
    requires
        0 <= i,
        i + x.len() < cs.len(),
        x == cs.subrange(i, i + x.len()),
        cs[i + x.len()] == '\'',
        !x.contains('\''),
    ensures
        sq_scan(cs, i, acc) == Ok::<(Seq<char>, int), ParseError>((acc + x, i + x.len() + 1)),
    decreases x.len(),
{
    if x.len() == 0 {
        assert(cs[i] == '\'');
        assert(acc + x =~= acc);
    } else {
        assert(x.contains(x[0])) by {
            assert(x[0] == x[0]);
        }
        assert(cs[i] == x[0]);
        assert(cs[i] != '\'');
        assert(!x.skip(1).contains('\'')) by {
            if x.skip(1).contains('\'') {
                let j = choose|j: int| 0 <= j < x.skip(1).len() && x.skip(1)[j] == '\'';
                assert(x[j + 1] == '\'');
                assert(x.contains(x[j + 1]));
            }
        }
        assert(x.skip(1) =~= cs.subrange(i + 1, i + 1 + x.skip(1).len()));
        lemma_sq_verbatim(cs, i + 1, x.skip(1), acc.push(cs[i]));
        assert(acc.push(x[0]) + x.skip(1) =~= acc + x);
    }
}

/// Quoting with single quotes preserves the quoted text exactly: a line that
/// is one single-quoted span parses to one command whose name is the span's
/// contents, verbatim.
pub proof fn lemma_single_quotes_verbatim(x: Seq<char>)
    requires
        !x.contains('\''),
    ensures
        parse_spec(seq!['\''] + x + seq!['\'']) == Ok::<Seq<CommandV>, ParseError>(
            seq![CommandV { name: x, args: Seq::empty(), redirect: None }],
        ),
{
    let cs = seq!['\''] + x + seq!['\''];
    assert(cs.len() == x.len() + 2);
    assert(cs[0] == '\'');
    assert(!is_space('\''));
    assert(skip_ws(cs, 0) == 0);
    assert(x =~= cs.subrange(1, 1 + x.len() as int));
    assert(cs[1 + x.len() as int] == '\'');
    lemma_sq_verbatim(cs, 1, x, Seq::empty());
    assert(Seq::<char>::empty() + x =~= x);
    assert(tok_scan(cs, 0, Seq::empty()) == tok_scan(cs, x.len() as int + 2, x));
    assert(tok_scan(cs, x.len() as int + 2, x) == Ok::<(Seq<char>, int), ParseError>(
        (x, x.len() as int + 2),
    ));
    assert(token_at(cs, 0, Seq::empty()) == Ok::<(Seq<char>, int), ParseError>(
        (x, cs.len() as int),
    ));
    let base = CommandV { name: x, args: Seq::empty(), redirect: None };
    assert(skip_ws(cs, cs.len() as int) == cs.len());
    assert(cmd_args(cs, cs.len() as int, base) == Ok::<(CommandV, int), ParseError>(
        (base, cs.len() as int),
    ));
    assert(cmd_scan(cs, 0) == Ok::<Option<(CommandV, int)>, ParseError>(
        Some((base, cs.len() as int)),
    ));
    assert(pipe_rest(cs, cs.len() as int, seq![base]) == Ok::<Seq<CommandV>, ParseError>(
        seq![base],
    ));
}

/// A double-quoted span without backslashes or quotes scans to exactly its
/// contents.
proof fn lemma_dq_verbatim(cs: Seq<char>, i: int, x: Seq<char>, acc: Seq<char>)
    requires
        0 <= i,
        i + x.len() < cs.len(),
        x == cs.subrange(i, i + x.len()),
        cs[i + x.len()] == '"',
        !x.contains('"'),
        !x.contains('\\'),
    ensures
        dq_scan(cs, i, acc) == Ok::<(Seq<char>, int), ParseError>((acc + x, i + x.len() + 1)),
    decreases x.len(),
{
    if x.len() == 0 {
        assert(cs[i] == '"');
        assert(acc + x =~= acc);
    } else {
        assert(x.contains(x[0])) by {
            assert(x[0] == x[0]);
        }
        assert(cs[i] == x[0]);
        assert(cs[i] != '"' && cs[i] != '\\');
        assert(!x.skip(1).contains('"') && !x.skip(1).contains('\\')) by {
            if x.skip(1).contains('"') {
                let j = choose|j: int| 0 <= j < x.skip(1).len() && x.skip(1)[j] == '"';
                assert(x[j + 1] == '"');
                assert(x.contains(x[j + 1]));
            }
            if x.skip(1).contains('\\') {
                let j = choose|j: int| 0 <= j < x.skip(1).len() && x.skip(1)[j] == '\\';
                assert(x[j + 1] == '\\');
                assert(x.contains(x[j + 1]));
            }
        }
        assert(x.skip(1) =~= cs.subrange(i + 1, i + 1 + x.skip(1).len()));
        lemma_dq_verbatim(cs, i + 1, x.skip(1), acc.push(cs[i]));
        assert(acc.push(x[0]) + x.skip(1) =~= acc + x);
    }
}

/// Quoting with double quotes preserves text that holds no backslash and no
/// quote exactly: such a line parses to one command named by the quoted
/// text, verbatim.
pub proof fn lemma_double_quotes_verbatim(x: Seq<char>)
    requires
        !x.contains('"'),
        !x.contains('\\'),
    ensures
        parse_spec(seq!['"'] + x + seq!['"']) == Ok::<Seq<CommandV>, ParseError>(
            seq![CommandV { name: x, args: Seq::empty(), redirect: None }],
        ),
{
    let cs = seq!['"'] + x + seq!['"'];
    assert(cs.len() == x.len() + 2);
    assert(cs[0] == '"');
    assert(!is_space('"'));
    assert(skip_ws(cs, 0) == 0);
    assert(x =~= cs.subrange(1, 1 + x.len() as int));
    assert(cs[1 + x.len() as int] == '"');
    lemma_dq_verbatim(cs, 1, x, Seq::empty());
    assert(Seq::<char>::empty() + x =~= x);
    assert(tok_scan(cs, 0, Seq::empty()) == tok_scan(cs, x.len() as int + 2, x));
    assert(tok_scan(cs, x.len() as int + 2, x) == Ok::<(Seq<char>, int), ParseError>(
        (x, x.len() as int + 2),
    ));
    assert(token_at(cs, 0, Seq::empty()) == Ok::<(Seq<char>, int), ParseError>(
        (x, cs.len() as int),
    ));
    let base = CommandV { name: x, args: Seq::empty(), redirect: None };
    assert(skip_ws(cs, cs.len() as int) == cs.len());
    assert(cmd_args(cs, cs.len() as int, base) == Ok::<(CommandV, int), ParseError>(
        (base, cs.len() as int),
    ));
    assert(cmd_scan(cs, 0) == Ok::<Option<(CommandV, int)>, ParseError>(
        Some((base, cs.len() as int)),
    ));
    assert(pipe_rest(cs, cs.len() as int, seq![base]) == Ok::<Seq<CommandV>, ParseError>(
        seq![base],
    ));
}

/// Inside double quotes, a backslash escapes exactly the three characters
/// backslash, dollar and quote; before anything else both characters stay.
pub proof fn lemma_double_quote_escape(c: char)
    requires
        c != '"',
    ensures
        parse_spec(seq!['"', '\\', c, '"']) == Ok::<Seq<CommandV>, ParseError>(
            seq![
                CommandV {
                    name: if c == '\\' || c == '$' {
                        seq![c]
                    } else {
                        seq!['\\', c]
                    },
                    args: Seq::empty(),
                    redirect: None,
                },
            ],
        ),
{
    let cs = seq!['"', '\\', c, '"'];
    assert(cs.len() == 4);
    assert(cs[0] == '"' && cs[1] == '\\' && cs[2] == c && cs[3] == '"');
    assert(!is_space('"'));
    assert(skip_ws(cs, 0) == 0);
    let name = if c == '\\' || c == '$' {
        seq![c]
    } else {
        seq!['\\', c]
    };
    if c == '\\' || c == '$' {
        assert(dq_scan(cs, 3, Seq::<char>::empty().push(c)) == Ok::<
            (Seq<char>, int),
            ParseError,
        >((Seq::<char>::empty().push(c), 4int)));
        assert(dq_scan(cs, 1, Seq::empty()) == Ok::<(Seq<char>, int), ParseError>((
            Seq::<char>::empty().push(c),
            4int,
        )));
        assert(Seq::<char>::empty().push(c) =~= name);
    } else {
        assert(dq_scan(cs, 3, Seq::<char>::empty().push('\\').push(c)) == Ok::<
            (Seq<char>, int),
            ParseError,
        >((Seq::<char>::empty().push('\\').push(c), 4int)));
        assert(dq_scan(cs, 1, Seq::empty()) == Ok::<(Seq<char>, int), ParseError>((
            Seq::<char>::empty().push('\\').push(c),
            4int,
        )));
        assert(Seq::<char>::empty().push('\\').push(c) =~= name);
    }
    assert(tok_scan(cs, 0, Seq::empty()) == tok_scan(cs, 4, name));
    assert(tok_scan(cs, 4, name) == Ok::<(Seq<char>, int), ParseError>((name, 4int)));
    assert(token_at(cs, 0, Seq::empty()) == Ok::<(Seq<char>, int), ParseError>((name, 4int)));
    let base = CommandV { name: name, args: Seq::empty(), redirect: None };
    assert(skip_ws(cs, 4) == 4);
    assert(cmd_args(cs, 4, base) == Ok::<(CommandV, int), ParseError>((base, 4int)));
    assert(cmd_scan(cs, 0) == Ok::<Option<(CommandV, int)>, ParseError>(Some((base, 4int))));
    assert(pipe_rest(cs, 4, seq![base]) == Ok::<Seq<CommandV>, ParseError>(seq![base]));
}

/// Parses a whole token as an `i32`, accepting one leading sign.
#[verifier::loop_isolation(false)]
pub fn i32_from_text(s: &str) -> (r: Option<i32>)
    ensures
        match r {
            Some(v) => i32_of_text(s@) == Some(v as int),
            None => i32_of_text(s@) == None::<int>,
        },
{
    let cs = chars_of(s);
    let n = cs.len();
    let signed = n > 0 && (cs[0] == '+' || cs[0] == '-');
    let neg = n > 0 && cs[0] == '-';
    let start: usize = if signed {
        1
    } else {
        0
    };
    let ghost ds = if signed {
        s@.skip(1)
    } else {
        s@
    };
    if start >= n {
        return None;
    }
    let mut acc: u64 = 0;
    let mut over = false;
    let mut i: usize = start;
    proof {
        assert(ds.take(0) =~= Seq::empty());
    }
    while i < n
        invariant
            cs@ == s@,
            n == cs@.len(),
            start <= i <= n,
            start == if signed { 1int } else { 0int },
            ds == if signed { s@.skip(1) } else { s@ },
            ds.len() == n - start,
            forall|j: int| 0 <= j < ds.len() ==> ds[j] == cs@[j + start],
            forall|j: int| 0 <= j < i - start ==> is_digit(#[trigger] ds[j]),
            !over ==> acc == digits_val(ds.take(i - start)) && acc <= 0x8000_0000,
            over ==> digits_val(ds.take(i - start)) > 0x8000_0000,
        decreases n - i,
    {
        let c = cs[i];
        if !char_is_digit(c) {
            proof {
                assert(ds[i - start] == c);
                assert(!all_digits(ds));
            }
            return None;
        }
        let d: u32 = (c as u32) - 48;
        proof {
            assert(ds.take(i - start + 1).drop_last() =~= ds.take(i - start));
            assert(ds.take(i - start + 1).last() == ds[i - start]);
            assert(ds[i - start] == c);
            assert(digits_val(ds.take(i - start + 1)) == digits_val(ds.take(i - start)) * 10 + (
            (c as u32) - 48));
        }
        if over {
            proof {
                assert(d >= 0);
                assert(digits_val(ds.take(i - start + 1)) > 0x8000_0000);
            }
        } else {
            let next: u64 = acc * 10 + (d as u64);
            if next > 0x8000_0000 {
                over = true;
            } else {
                acc = next;
            }
        }
        i = i + 1;
    }
    proof {
        assert(ds.take(n - start) =~= ds);
        assert(all_digits(ds));
    }
    if over {
        return None;
    }
    if neg {
        if acc == 0x8000_0000 {
            Some(i32::MIN)
        } else {
            Some(-(acc as i32))
        }
    } else {
        if acc > 0x7FFF_FFFF {
            None
        } else {
            Some(acc as i32)
        }
    }
}

impl Fd {
    /// The descriptor a token denotes: empty text means standard output,
    /// `1` and `2` the standard streams, any other `i32` its number.
    pub fn from_str(s: &str) -> (r: Result<Fd, ParseError>)
        ensures
            match r {
                Ok(fd) => fd_spec(s@) == Some(fd),
                Err(e) => fd_spec(s@) == None::<Fd> && e == ParseError::BadDescriptor,
            },
    {
        if s.unicode_len() == 0 {
            return Ok(Fd::Stdout);
        }
        match i32_from_text(s) {
            None => Err(ParseError::BadDescriptor),
            Some(v) => {
                if v == 1 {
                    Ok(Fd::Stdout)
                } else if v == 2 {
                    Ok(Fd::Stderr)
                } else {
                    Ok(Fd::Other(v))
                }
            },
        }
    }
}

/// The scanner over one input line: its characters, the current position,
/// and the token text accumulated so far.
pub struct CommandParser {
    chars: Vec<char>,
    pos: usize,
    buf: String,
}

impl CommandParser {
    /// The characters of the input line.
    pub closed spec fn src(self) -> Seq<char> {
        self.chars@
    }

    /// The current scan position.
    pub closed spec fn at(self) -> int {
        self.pos as int
    }

    /// The token text accumulated so far.
    pub closed spec fn pending(self) -> Seq<char> {
        self.buf@
    }

    /// The position stays within the input.
    pub open spec fn wf(self) -> bool {
        0 <= self.at() <= self.src().len()
    }

    /// A parser at the start of the given line.
    pub fn new(s: &str) -> (r: CommandParser)
        ensures
            r.wf(),
            r.src() == s@,
            r.at() == 0,
            r.pending() == Seq::<char>::empty(),
    {
        let r = CommandParser { chars: chars_of(s), pos: 0, buf: String::new() };
        proof {
            assert(r.pending() =~= Seq::<char>::empty());
        }
        r
    }

    /// Skips whitespace; true when the input is exhausted.
    #[verifier::loop_isolation(false)]
    fn advance(&mut self) -> (r: bool)
        requires
            old(self).wf(),
        ensures
            final(self).wf(),
            final(self).src() == old(self).src(),
            final(self).pending() == old(self).pending(),
            final(self).at() == skip_ws(old(self).src(), old(self).at()),
            r == (final(self).at() >= final(self).src().len()),
    {
        while self.pos < self.chars.len() && char_is_space(self.chars[self.pos])
            invariant
                self.wf(),
                self.src() == old(self).src(),
                self.pending() == old(self).pending(),
                skip_ws(self.src(), self.at()) == skip_ws(old(self).src(), old(self).at()),
            decreases self.src().len() - self.at(),
        {
            self.pos = self.pos + 1;
        }
        self.pos >= self.chars.len()
    }

    /// Hands the accumulated token out and clears the accumulator.
    fn take_buf(&mut self) -> (r: String)
        ensures
            final(self).wf() == old(self).wf(),
            final(self).src() == old(self).src(),
            final(self).at() == old(self).at(),
            final(self).pending() == Seq::<char>::empty(),
            r@ == old(self).pending(),
    {
        let r = self.buf.clone();
        self.buf = String::new();
        proof {
            assert(self.pending() =~= Seq::<char>::empty());
        }
        r
    }

    /// Scans a single-quoted span into the accumulator.
    #[verifier::loop_isolation(false)]
    fn parse_single_quotes(&mut self) -> (r: Result<(), ParseError>)
        requires
            old(self).wf(),
        ensures
            final(self).wf(),
            final(self).src() == old(self).src(),
            match sq_scan(old(self).src(), old(self).at(), old(self).pending()) {
                Ok(t) => r == Ok::<(), ParseError>(()) && final(self).pending() == t.0
                    && final(self).at() == t.1,
                Err(e) => r == Err::<(), ParseError>(e),
            },
    {
        loop
            invariant
                self.wf(),
                self.src() == old(self).src(),
                sq_scan(self.src(), self.at(), self.pending()) == sq_scan(
                    old(self).src(),
                    old(self).at(),
                    old(self).pending(),
                ),
            decreases self.src().len() - self.at(),
        {
            if self.pos >= self.chars.len() {
                return Err(ParseError::UnclosedSingleQuote);
            }
            let c = self.chars[self.pos];
            if c == '\'' {
                self.pos = self.pos + 1;
                return Ok(());
            }
            crate::strutil::push_char(&mut self.buf, c);
            self.pos = self.pos + 1;
        }
    }

    /// Scans a double-quoted span into the accumulator.
    #[verifier::loop_isolation(false)]
    fn parse_double_quotes(&mut self) -> (r: Result<(), ParseError>)
        requires
            old(self).wf(),
        ensures
            final(self).wf(),
            final(self).src() == old(self).src(),
            match dq_scan(old(self).src(), old(self).at(), old(self).pending()) {
                Ok(t) => r == Ok::<(), ParseError>(()) && final(self).pending() == t.0
                    && final(self).at() == t.1,
                Err(e) => r == Err::<(), ParseError>(e),
            },
    {
        loop
            invariant
                self.wf(),
                self.src() == old(self).src(),
                dq_scan(self.src(), self.at(), self.pending()) == dq_scan(
                    old(self).src(),
                    old(self).at(),
                    old(self).pending(),
                ),
            decreases self.src().len() - self.at(),
        {
            if self.pos >= self.chars.len() {
                return Err(ParseError::UnclosedDoubleQuote);
            }
            let c = self.chars[self.pos];
            if c == '"' {
                self.pos = self.pos + 1;
                return Ok(());
            }
            if c == '\\' {
                if self.pos + 1 >= self.chars.len() {
                    return Err(ParseError::DanglingEscape);
                }
                let next = self.chars[self.pos + 1];
                if next == '\\' || next == '$' || next == '"' {
                    crate::strutil::push_char(&mut self.buf, next);
                } else {
                    crate::strutil::push_char(&mut self.buf, '\\');
                    crate::strutil::push_char(&mut self.buf, next);
                }
                self.pos = self.pos + 2;
            } else {
                crate::strutil::push_char(&mut self.buf, c);
                self.pos = self.pos + 1;
            }
        }
    }

    /// Scans one token into the accumulator, following the quoting rules.
    #[verifier::loop_isolation(false)]
    fn parse_string(&mut self) -> (r: Result<(), ParseError>)
        requires
            old(self).wf(),
        ensures
            final(self).wf(),
            final(self).src() == old(self).src(),
            match token_at(old(self).src(), old(self).at(), old(self).pending()) {
                Ok(t) => r == Ok::<(), ParseError>(()) && final(self).pending() == t.0
                    && final(self).at() == t.1,
                Err(e) => r == Err::<(), ParseError>(e),
            },
    {
        if self.pos >= self.chars.len() && self.buf.as_str().unicode_len() == 0 {
            return Err(ParseError::ExpectedString);
        }
        loop
            invariant
                self.wf(),
                self.src() == old(self).src(),
                tok_scan(self.src(), self.at(), self.pending()) == tok_scan(
                    old(self).src(),
                    old(self).at(),
                    old(self).pending(),
                ),
            decreases self.src().len() - self.at(),
        {
            if self.pos >= self.chars.len() {
                return Ok(());
            }
            let c = self.chars[self.pos];
            if char_is_space(c) {
                self.pos = self.pos + 1;
                return Ok(());
            }
            if c == '>' {
                return Err(ParseError::RedirectInToken);
            }
            if c == '|' {
                return Err(ParseError::PipeInToken);
            }
            if c == '\\' {
                if self.pos + 1 >= self.chars.len() {
                    return Err(ParseError::DanglingEscape);
                }
                let next = self.chars[self.pos + 1];
                crate::strutil::push_char(&mut self.buf, next);
                self.pos = self.pos + 2;
            } else if c == '\'' {
                self.pos = self.pos + 1;
                proof {
                    lemma_sq_bounds(self.src(), self.at(), self.pending());
                }
                match self.parse_single_quotes() {
                    Ok(()) => {},
                    Err(e) => {
                        return Err(e);
                    },
                }
            } else if c == '"' {
                self.pos = self.pos + 1;
                proof {
                    lemma_dq_bounds(self.src(), self.at(), self.pending());
                }
                match self.parse_double_quotes() {
                    Ok(()) => {},
                    Err(e) => {
                        return Err(e);
                    },
                }
            } else {
                crate::strutil::push_char(&mut self.buf, c);
                self.pos = self.pos + 1;
            }
        }
    }

    /// Scans a redirection if one starts here; otherwise leaves the digits
    /// it read in the accumulator and reports that no redirection begins.
    #[verifier::loop_isolation(false)]
    fn try_parse_redirect(&mut self) -> (r: Result<Option<Redirect>, ParseError>)
        requires
            old(self).wf(),
            old(self).pending() == Seq::<char>::empty(),
        ensures
            final(self).wf(),
            final(self).src() == old(self).src(),
            ({
                let cs = old(self).src();
                let i = old(self).at();
                let j = digits_end(cs, i);
                if j < cs.len() && cs[j] == '>' {
                    match redir_scan(cs, i) {
                        Ok(t) => match r {
                            Ok(Some(rd)) => rd@ == t.0 && final(self).at() == t.1
                                && final(self).pending() == Seq::<char>::empty(),
                            _ => false,
                        },
                        Err(e) => r == Err::<Option<Redirect>, ParseError>(e),
                    }
                } else {
                    r == Ok::<Option<Redirect>, ParseError>(None) && final(self).at() == j
                        && final(self).pending() == cs.subrange(i, j)
                }
            }),
    {
        let ghost cs = self.src();
        let ghost i0 = self.at();
        proof {
            assert(self.pending() =~= cs.subrange(i0, i0));
        }
        while self.pos < self.chars.len() && char_is_digit(self.chars[self.pos])
            invariant
                self.wf(),
                self.src() == cs,
                i0 <= self.at(),
                digits_end(cs, self.at()) == digits_end(cs, i0),
                self.pending() == cs.subrange(i0, self.at()),
            decreases cs.len() - self.at(),
        {
            let c = self.chars[self.pos];
            crate::strutil::push_char(&mut self.buf, c);
            self.pos = self.pos + 1;
            proof {
                assert(self.pending() =~= cs.subrange(i0, self.at()));
            }
        }
        proof {
            assert(digits_end(cs, self.at()) == self.at());
        }
        if self.pos >= self.chars.len() || self.chars[self.pos] != '>' {
            return Ok(None);
        }
        // a redirection begins: digits, then '>'
        self.pos = self.pos + 1;
        let from = match Fd::from_str(self.buf.as_str()) {
            Ok(fd) => fd,
            Err(e) => {
                return Err(e);
            },
        };
        self.buf = String::new();
        proof {
            assert(self.pending() =~= Seq::<char>::empty());
        }
        let append = self.pos < self.chars.len() && self.chars[self.pos] == '>';
        let r_type = if append {
            self.pos = self.pos + 1;
            RedirectType::Append
        } else {
            RedirectType::Normal
        };
        if self.pos < self.chars.len() && self.chars[self.pos] == '&' {
            self.pos = self.pos + 1;
            match self.parse_string() {
                Ok(()) => {},
                Err(e) => {
                    return Err(e);
                },
            }
            let target = match Fd::from_str(self.buf.as_str()) {
                Ok(fd) => fd,
                Err(e) => {
                    return Err(e);
                },
            };
            self.buf = String::new();
            proof {
                assert(self.pending() =~= Seq::<char>::empty());
            }
            Ok(Some(Redirect { r_type, from, to: RedirectTo::Fd(target) }))
        } else {
            self.advance();
            match self.parse_string() {
                Ok(()) => {},
                Err(e) => {
                    return Err(e);
                },
            }
            let file = self.take_buf();
            Ok(Some(Redirect { r_type, from, to: RedirectTo::File(file) }))
        }
    }

    /// Parses one command of the pipeline: its name, then arguments and
    /// redirections until `|` or the end of the line. `None` when only
    /// whitespace remains.
    #[verifier::loop_isolation(false)]
    pub fn parse_command(&mut self) -> (r: Result<Option<Command>, ParseError>)
        requires
            old(self).wf(),
            old(self).pending() == Seq::<char>::empty(),
        ensures
            final(self).wf(),
            final(self).src() == old(self).src(),
            match cmd_scan(old(self).src(), old(self).at()) {
                Ok(None) => r == Ok::<Option<Command>, ParseError>(None),
                Ok(Some(t)) => match r {
                    Ok(Some(c)) => c@ == t.0 && final(self).at() == t.1 && final(self).pending()
                        == Seq::<char>::empty(),
                    _ => false,
                },
                Err(e) => r == Err::<Option<Command>, ParseError>(e),
            },
    {
        let ghost cs = self.src();
        let ghost i0 = self.at();
        if self.advance() {
            return Ok(None);
        }
        match self.parse_string() {
            Ok(()) => {},
            Err(e) => {
                return Err(e);
            },
        }
        let name = self.take_buf();
        let mut args: Vec<String> = Vec::new();
        let mut redirect: Option<Redirect> = None;
        let ghost target = cmd_args(
            cs,
            self.at(),
            CommandV { name: name@, args: Seq::empty(), redirect: None },
        );
        proof {
            assert(args.deep_view() =~= Seq::<Seq<char>>::empty());
            assert(cmd_scan(cs, i0) == match target {
                Ok::<(CommandV, int), ParseError>(t) => Ok::<
                    Option<(CommandV, int)>,
                    ParseError,
                >(Some((t.0, t.1))),
                Err(e) => Err::<Option<(CommandV, int)>, ParseError>(e),
            });
        }
        loop
            invariant
                self.wf(),
                self.src() == cs,
                self.pending() == Seq::<char>::empty(),
                cmd_args(
                    cs,
                    self.at(),
                    CommandV {
                        name: name@,
                        args: args.deep_view(),
                        redirect: opt_redirect_view(redirect),
                    },
                ) == target,
            decreases cs.len() - self.at(),
        {
            let ghost at_loop = self.at();
            let ghost cur = CommandV {
                name: name@,
                args: args.deep_view(),
                redirect: opt_redirect_view(redirect),
            };
            if self.advance() {
                proof {
                    assert(target == Ok::<(CommandV, int), ParseError>((cur, self.at())));
                }
                return Ok(Some(Command { name, args, redirect }));
            }
            if self.chars[self.pos] == '|' {
                proof {
                    assert(skip_ws(cs, at_loop) == self.at());
                    assert(target == Ok::<(CommandV, int), ParseError>((cur, self.at())));
                }
                return Ok(Some(Command { name, args, redirect }));
            }
            let ghost j = self.at();
            proof {
                lemma_skip_ws_bounds(cs, at_loop);
            }
            match self.try_parse_redirect() {
                Err(e) => {
                    return Err(e);
                },
                Ok(Some(rd)) => {
                    proof {
                        assert(step_scan(cs, j) == Ok::<StepV, ParseError>(
                            StepV::Redir(rd@, self.at()),
                        ));
                        lemma_step_bounds(cs, j);
                    }
                    redirect = Some(rd);
                },
                Ok(None) => {
                    match self.parse_string() {
                        Err(e) => {
                            proof {
                                assert(step_scan(cs, j) == Err::<StepV, ParseError>(e));
                            }
                            return Err(e);
                        },
                        Ok(()) => {},
                    }
                    let ghost pre_args = args.deep_view();
                    let tok = self.take_buf();
                    proof {
                        assert(step_scan(cs, j) == Ok::<StepV, ParseError>(
                            StepV::Arg(tok@, self.at()),
                        ));
                        lemma_step_bounds(cs, j);
                    }
                    args.push(tok);
                    proof {
                        assert(args.deep_view() =~= pre_args.push(tok@));
                    }
                },
            }
        }
    }

    /// Parses the whole line into a pipeline of commands.
    #[verifier::loop_isolation(false)]
    pub fn parse(self) -> (r: Result<Vec<Command>, ParseError>)
        requires
            self.wf(),
            self.at() == 0,
            self.pending() == Seq::<char>::empty(),
        ensures
            match parse_spec(self.src()) {
                Ok(cvs) => match r {
                    Ok(v) => v@.map_values(|c: Command| c@) == cvs,
                    _ => false,
                },
                Err(e) => r == Err::<Vec<Command>, ParseError>(e),
            },
    {
        let ghost cs = self.src();
        let mut p = self;
        let first = match p.parse_command() {
            Err(e) => {
                return Err(e);
            },
            Ok(None) => {
                let empty: Vec<Command> = Vec::new();
                proof {
                    assert(empty@.map_values(|c: Command| c@) =~= Seq::<CommandV>::empty());
                }
                return Ok(empty);
            },
            Ok(Some(c)) => c,
        };
        proof {
            lemma_cmd_scan_stops(cs, 0);
        }
        let mut pipeline: Vec<Command> = Vec::new();
        pipeline.push(first);
        proof {
            let fv = cmd_scan(cs, 0)->Ok_0->Some_0.0;
            assert(pipeline@.map_values(|c: Command| c@) =~= seq![fv]);
        }
        loop
            invariant
                p.wf(),
                p.src() == cs,
                p.pending() == Seq::<char>::empty(),
                p.at() == cs.len() || cs[p.at()] == '|',
                pipe_rest(cs, p.at(), pipeline@.map_values(|c: Command| c@)) == parse_spec(cs),
            decreases cs.len() - p.at(),
        {
            if p.pos >= p.chars.len() {
                proof {
                    assert(pipe_rest(cs, p.at(), pipeline@.map_values(|c: Command| c@))
                        == Ok::<Seq<CommandV>, ParseError>(
                        pipeline@.map_values(|c: Command| c@),
                    ));
                }
                return Ok(pipeline);
            }
            p.pos = p.pos + 1;
            let ghost after_bar = p.at();
            match p.parse_command() {
                Err(e) => {
                    return Err(e);
                },
                Ok(None) => {
                    return Err(ParseError::MissingCommand);
                },
                Ok(Some(c)) => {
                    proof {
                        lemma_cmd_scan_stops(cs, after_bar);
                    }
                    let ghost pre = pipeline@.map_values(|c: Command| c@);
                    pipeline.push(c);
                    proof {
                        assert(pipeline@.map_values(|c: Command| c@) =~= pre.push(c@));
                    }
                },
            }
        }
    }
}

} // verus!
