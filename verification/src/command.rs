//! The pure decision logic of the shell's commands: which names are
//! builtins, what each builtin writes and to which stream, how a parsed
//! pipeline is classified into internal and external stages, and when a
//! pipeline asks the shell to exit.
//!
//! Everything that touches the outside world — spawning, files, the current
//! directory, the search path — stays outside; these functions compute from
//! plain values what the shell must do with them.

use vstd::prelude::*;
use vstd::string::StrSliceExecFns;
use vstd::string::StringExecFns;

use crate::history::dec_str;
use crate::history::usize_to_string;
use crate::parser::Command;
use crate::parser::CommandV;
use crate::parser::Fd;
use crate::parser::ParseError;
use crate::parser::Redirect;
use crate::parser::RedirectTo;
use crate::parser::RedirectToV;
use crate::parser::RedirectType;
use crate::parser::RedirectV;
use crate::parser::all_digits;
use crate::parser::digits_val;
use crate::parser::parse_spec;
use crate::parser::CommandParser;
use crate::strutil::char_is_digit;
use crate::strutil::chars_of;
use crate::strutil::eq_ignore_ascii_case;
use crate::strutil::is_digit;
use crate::strutil::lower_seq;
use crate::strutil::push_char;

verus! {

/// The closed set of builtin identities, with `Empty` for a blank command.
#[derive(Clone, Copy, Debug, PartialEq, Eq, Structural)]
pub enum InternalCommandName {
    Echo,
    Type,
    Cd,
    Empty,
    Exit,
    Pwd,
    History,
}

/// Which builtin a command name denotes, if any; matching ignores ASCII
/// case.
pub open spec fn builtin_of(name: Seq<char>) -> Option<InternalCommandName> {
    let l = lower_seq(name);
    if l == Seq::<char>::empty() {
        Some(InternalCommandName::Empty)
    } else if l == seq!['e', 'c', 'h', 'o'] {
        Some(InternalCommandName::Echo)
    } else if l == seq!['t', 'y', 'p', 'e'] {
        Some(InternalCommandName::Type)
    } else if l == seq!['c', 'd'] {
        Some(InternalCommandName::Cd)
    } else if l == seq!['e', 'x', 'i', 't'] {
        Some(InternalCommandName::Exit)
    } else if l == seq!['p', 'w', 'd'] {
        Some(InternalCommandName::Pwd)
    } else if l == seq!['h', 'i', 's', 't', 'o', 'r', 'y'] {
        Some(InternalCommandName::History)
    } else {
        None
    }
}

impl InternalCommandName {
    /// Decides which builtin a name denotes.
    pub fn from_str(s: &str) -> (r: Option<InternalCommandName>)
        ensures
            r == builtin_of(s@),
    {
        proof {
            reveal_strlit("");
            reveal_strlit("echo");
            reveal_strlit("type");
            reveal_strlit("cd");
            reveal_strlit("exit");
            reveal_strlit("pwd");
            reveal_strlit("history");
            assert(""@ =~= Seq::<char>::empty());
            assert("echo"@ =~= seq!['e', 'c', 'h', 'o']);
            assert("type"@ =~= seq!['t', 'y', 'p', 'e']);
            assert("cd"@ =~= seq!['c', 'd']);
            assert("exit"@ =~= seq!['e', 'x', 'i', 't']);
            assert("pwd"@ =~= seq!['p', 'w', 'd']);
            assert("history"@ =~= seq!['h', 'i', 's', 't', 'o', 'r', 'y']);
        }
        if eq_ignore_ascii_case(s, "") {
            Some(InternalCommandName::Empty)
        } else if eq_ignore_ascii_case(s, "echo") {
            Some(InternalCommandName::Echo)
        } else if eq_ignore_ascii_case(s, "type") {
            Some(InternalCommandName::Type)
        } else if eq_ignore_ascii_case(s, "cd") {
            Some(InternalCommandName::Cd)
        } else if eq_ignore_ascii_case(s, "exit") {
            Some(InternalCommandName::Exit)
        } else if eq_ignore_ascii_case(s, "pwd") {
            Some(InternalCommandName::Pwd)
        } else if eq_ignore_ascii_case(s, "history") {
            Some(InternalCommandName::History)
        } else {
            None
        }
    }
}

/// A message a builtin writes, addressed to one of its two sinks.
#[derive(Debug, PartialEq, Eq)]
pub enum Message {
    /// Written to the output sink.
    Stdout(String),
    /// Written to the error sink.
    Stderr(String),
}

/// Ghost image of a message.
pub ghost enum MessageV {
    Stdout(Seq<char>),
    Stderr(Seq<char>),
}

impl View for Message {
    type V = MessageV;

    open spec fn view(&self) -> MessageV {
        match self {
            Message::Stdout(s) => MessageV::Stdout(s@),
            Message::Stderr(s) => MessageV::Stderr(s@),
        }
    }
}

/// The arguments joined by single spaces.
pub open spec fn join_spaces(args: Seq<Seq<char>>) -> Seq<char>
    decreases args.len(),
{
    if args.len() == 0 {
        Seq::empty()
    } else if args.len() == 1 {
        args[0]
    } else {
        args[0] + seq![' '] + join_spaces(args.skip(1))
    }
}

/// What `echo` writes: its arguments joined by spaces, then a newline.
pub open spec fn echo_output(args: Seq<Seq<char>>) -> Seq<char> {
    join_spaces(args) + seq!['\n']
}

/// Computes `echo`'s output line.
#[verifier::loop_isolation(false)]
pub fn echo_line(args: &Vec<String>) -> (r: String)
    ensures
        r@ == echo_output(args.deep_view()),
{
    let mut out = String::new();
    let n = args.len();
    let ghost av = args.deep_view();
    proof {
        assert(out@ =~= Seq::<char>::empty());
        assert(av.skip(0) =~= av);
    }
    let mut i: usize = 0;
    while i < n
        invariant
            i <= n,
            join_spaces(av) == out@ + join_spaces(av.skip(i as int)),
        decreases n - i,
    {
        out.append(args[i].as_str());
        proof {
            assert(av.skip(i as int)[0] == av[i as int]);
            assert(av.skip(i as int).skip(1) =~= av.skip(i as int + 1));
            assert(av.skip(i as int).len() == av.len() - i);
        }
        if i + 1 < n {
            push_char(&mut out, ' ');
        }
        i = i + 1;
    }
    proof {
        assert(av.skip(n as int).len() == 0);
        assert(join_spaces(av.skip(n as int)) =~= Seq::<char>::empty());
        assert(join_spaces(av) =~= out@);
    }
    push_char(&mut out, '\n');
    out
}

/// What `type` replies for one looked-up name: a builtin notice, the found
/// path, or a not-found error.
pub open spec fn type_reply(name: Seq<char>, lookup: Option<Seq<char>>) -> MessageV {
    match builtin_of(name) {
        Some(b) => if b is Empty {
            type_lookup_reply(name, lookup)
        } else {
            MessageV::Stdout(name + " is a shell builtin\n"@)
        },
        None => type_lookup_reply(name, lookup),
    }
}

/// The `type` reply when the name is no builtin and the path was searched.
pub open spec fn type_lookup_reply(name: Seq<char>, lookup: Option<Seq<char>>) -> MessageV {
    match lookup {
        Some(path) => MessageV::Stdout(name + " is "@ + path + "\n"@),
        None => MessageV::Stderr(name + ": not found\n"@),
    }
}

/// True when `type` must search the path for this name before replying.
pub fn type_needs_lookup(name: &str) -> (r: bool)
    ensures
        r == (match builtin_of(name@) {
            Some(b) => b is Empty,
            None => true,
        }),
{
    match InternalCommandName::from_str(name) {
        Some(b) => matches!(b, InternalCommandName::Empty),
        None => true,
    }
}

/// Computes `type`'s reply. `lookup` is the result of searching the path for
/// the name; it is ignored for builtin names.
pub fn type_message(name: Option<&String>, lookup: Option<String>) -> (r: Message)
    ensures
        match name {
            Some(n) => r@ == type_reply(n@, lookup.deep_view()),
            None => r@ == MessageV::Stderr("Expected an arguement\n"@),
        },
{
    let n = match name {
        Some(n) => n,
        None => {
            return Message::Stderr(String::from_str("Expected an arguement\n"));
        },
    };
    if !type_needs_lookup(n.as_str()) {
        let mut s = n.clone();
        s.append(" is a shell builtin\n");
        Message::Stdout(s)
    } else {
        match lookup {
            Some(path) => {
                let mut s = n.clone();
                s.append(" is ");
                s.append(path.as_str());
                s.append("\n");
                Message::Stdout(s)
            },
            None => {
                let mut s = n.clone();
                s.append(": not found\n");
                Message::Stderr(s)
            },
        }
    }
}

/// What `pwd` replies: the current directory, or an error for any argument
/// or when the directory cannot be read.
pub open spec fn pwd_reply(arg_count: int, cwd: Option<Seq<char>>) -> MessageV {
    if arg_count > 0 {
        MessageV::Stderr("expected 0 arguments; got "@ + dec_str(arg_count as nat) + "\n"@)
    } else {
        match cwd {
            Some(path) => MessageV::Stdout(path + "\n"@),
            None => MessageV::Stderr("Current directory cannot be found!\n"@),
        }
    }
}

/// Computes `pwd`'s reply. `cwd` is the process working directory as the
/// platform reports it; it is ignored when arguments were given.
pub fn pwd_message(arg_count: usize, cwd: Option<String>) -> (r: Message)
    ensures
        r@ == pwd_reply(arg_count as int, cwd.deep_view()),
{
    if arg_count > 0 {
        let mut s = String::from_str("expected 0 arguments; got ");
        let num = usize_to_string(arg_count);
        s.append(num.as_str());
        s.append("\n");
        Message::Stderr(s)
    } else {
        match cwd {
            Some(path) => {
                let mut s = path;
                s.append("\n");
                Message::Stdout(s)
            },
            None => Message::Stderr(String::from_str("Current directory cannot be found!\n")),
        }
    }
}

/// The directory `cd` must change to: no argument means the home directory,
/// and a leading `~` is replaced by it.
pub open spec fn cd_target_spec(args: Seq<Seq<char>>, home: Seq<char>) -> Result<
    Seq<char>,
    MessageV,
> {
    if args.len() > 1 {
        Err(MessageV::Stderr("Too many args for cd command\n"@))
    } else {
        let path = if args.len() == 0 {
            seq!['~']
        } else {
            args[0]
        };
        if path.len() > 0 && path[0] == '~' {
            Ok(home + path.skip(1))
        } else {
            Ok(path)
        }
    }
}

/// Computes where `cd` must go, given the user's home directory.
pub fn cd_target(args: &Vec<String>, home: &str) -> (r: Result<String, Message>)
    ensures
        match r {
            Ok(p) => cd_target_spec(args.deep_view(), home@) == Ok::<Seq<char>, MessageV>(p@),
            Err(m) => cd_target_spec(args.deep_view(), home@) == Err::<Seq<char>, MessageV>(m@),
        },
{
    if args.len() > 1 {
        return Err(Message::Stderr(String::from_str("Too many args for cd command\n")));
    }
    let path: String = if args.len() == 0 {
        proof {
            reveal_strlit("~");
            assert("~"@ =~= seq!['~']);
        }
        String::from_str("~")
    } else {
        args[0].clone()
    };
    let n = path.as_str().unicode_len();
    if n > 0 && path.as_str().get_char(0) == '~' {
        let mut s = home.to_owned();
        let rest = path.as_str().substring_char(1, n);
        s.append(rest);
        proof {
            assert(rest@ =~= path@.skip(1));
        }
        Ok(s)
    } else {
        Ok(path)
    }
}

/// The error `cd` reports when the directory change failed.
pub fn cd_error(path: &str) -> (r: Message)
    ensures
        r@ == MessageV::Stderr("cd: "@ + path@ + ": No such file or directory\n"@),
{
    let mut s = String::from_str("cd: ");
    s.append(path);
    s.append(": No such file or directory\n");
    Message::Stderr(s)
}

/// The error the executor reports when a program cannot be spawned.
pub fn not_found_message(name: &str) -> (r: Message)
    ensures
        r@ == MessageV::Stderr(name@ + ": command not found\n"@),
{
    let mut s = name.to_owned();
    s.append(": command not found\n");
    Message::Stderr(s)
}

/// What the `history` builtin was asked to do.
#[derive(Debug, PartialEq, Eq)]
pub enum HistoryRequest {
    /// Print the whole history.
    ShowAll,
    /// Print the last so-many entries.
    ShowLast(usize),
    /// Load a file and merge its entries.
    ReadFrom(String),
    /// Truncate-write all entries to a file.
    WriteTo(String),
    /// Append the unflushed entries to a file.
    AppendTo(String),
    /// Anything else: reported on the error sink.
    Invalid,
}

/// Ghost image of a history request.
pub ghost enum HistoryRequestV {
    ShowAll,
    ShowLast(int),
    ReadFrom(Seq<char>),
    WriteTo(Seq<char>),
    AppendTo(Seq<char>),
    Invalid,
}

impl View for HistoryRequest {
    type V = HistoryRequestV;

    open spec fn view(&self) -> HistoryRequestV {
        match self {
            HistoryRequest::ShowAll => HistoryRequestV::ShowAll,
            HistoryRequest::ShowLast(n) => HistoryRequestV::ShowLast(*n as int),
            HistoryRequest::ReadFrom(p) => HistoryRequestV::ReadFrom(p@),
            HistoryRequest::WriteTo(p) => HistoryRequestV::WriteTo(p@),
            HistoryRequest::AppendTo(p) => HistoryRequestV::AppendTo(p@),
            HistoryRequest::Invalid => HistoryRequestV::Invalid,
        }
    }
}

/// What the `history` builtin's arguments ask for: nothing for the full
/// listing, a count for the tail, `-r`/`-w`/`-a` with a path for file work,
/// anything else is invalid.
pub open spec fn history_request_spec(args: Seq<Seq<char>>) -> HistoryRequestV {
    if args.len() == 0 {
        HistoryRequestV::ShowAll
    } else if args.len() == 1 {
        if args[0].len() > 0 && all_digits(args[0]) && digits_val(args[0]) <= usize::MAX {
            HistoryRequestV::ShowLast(digits_val(args[0]))
        } else {
            HistoryRequestV::Invalid
        }
    } else if args.len() == 2 {
        if args[0] == seq!['-', 'r'] {
            HistoryRequestV::ReadFrom(args[1])
        } else if args[0] == seq!['-', 'w'] {
            HistoryRequestV::WriteTo(args[1])
        } else if args[0] == seq!['-', 'a'] {
            HistoryRequestV::AppendTo(args[1])
        } else {
            HistoryRequestV::Invalid
        }
    } else {
        HistoryRequestV::Invalid
    }
}

/// Parses a whole token of decimal digits as a `usize`.
#[verifier::loop_isolation(false)]
pub fn usize_from_digits(s: &str) -> (r: Option<usize>)
    ensures
        match r {
            Some(v) => s@.len() > 0 && all_digits(s@) && digits_val(s@) == v as int,
            None => !(s@.len() > 0 && all_digits(s@) && digits_val(s@) <= usize::MAX),
        },
{
    let cs = chars_of(s);
    let n = cs.len();
    if n == 0 {
        return None;
    }
    let mut acc: u64 = 0;
    let mut over = false;
    let mut i: usize = 0;
    proof {
        assert(s@.take(0) =~= Seq::empty());
    }
    while i < n
        invariant
            i <= n,
            forall|j: int| 0 <= j < i ==> is_digit(#[trigger] s@[j]),
            !over ==> acc == digits_val(s@.take(i as int)) && acc <= usize::MAX,
            over ==> digits_val(s@.take(i as int)) > usize::MAX,
        decreases n - i,
    {
        let c = cs[i];
        if !char_is_digit(c) {
            return None;
        }
        let d: u32 = (c as u32) - 48;
        proof {
            assert(s@.take(i as int + 1).drop_last() =~= s@.take(i as int));
            assert(s@.take(i as int + 1).last() == s@[i as int]);
            assert(digits_val(s@.take(i as int + 1)) == digits_val(s@.take(i as int)) * 10 + ((
            c as u32) - 48));
        }
        if !over {
            let next = match acc.checked_mul(10) {
                Some(m) => m.checked_add(d as u64),
                None => None,
            };
            match next {
                Some(v) => {
                    if v > usize::MAX as u64 {
                        over = true;
                    } else {
                        acc = v;
                    }
                },
                None => {
                    proof {
                        assert(acc * 10 + d > u64::MAX >= usize::MAX);
                    }
                    over = true;
                },
            }
        }
        i = i + 1;
    }
    proof {
        assert(s@.take(n as int) =~= s@);
    }
    if over {
        None
    } else {
        Some(acc as usize)
    }
}

/// Decides what the `history` builtin's arguments ask for.
pub fn history_request(args: &Vec<String>) -> (r: HistoryRequest)
    ensures
        r@ == history_request_spec(args.deep_view()),
{
    proof {
        reveal_strlit("-r");
        reveal_strlit("-w");
        reveal_strlit("-a");
        assert("-r"@ =~= seq!['-', 'r']);
        assert("-w"@ =~= seq!['-', 'w']);
        assert("-a"@ =~= seq!['-', 'a']);
    }
    if args.len() == 0 {
        HistoryRequest::ShowAll
    } else if args.len() == 1 {
        match usize_from_digits(args[0].as_str()) {
            Some(v) => HistoryRequest::ShowLast(v),
            None => HistoryRequest::Invalid,
        }
    } else if args.len() == 2 {
        if crate::strutil::str_eq(args[0].as_str(), "-r") {
            HistoryRequest::ReadFrom(args[1].clone())
        } else if crate::strutil::str_eq(args[0].as_str(), "-w") {
            HistoryRequest::WriteTo(args[1].clone())
        } else if crate::strutil::str_eq(args[0].as_str(), "-a") {
            HistoryRequest::AppendTo(args[1].clone())
        } else {
            HistoryRequest::Invalid
        }
    } else {
        HistoryRequest::Invalid
    }
}

/// Whether the pipeline lets the event loop continue or asks it to exit.
#[derive(Clone, Copy, Debug, PartialEq, Eq, Structural)]
pub enum RunResult {
    Exit,
    Continue,
}

/// How one builtin's redirection replaces a stream: the named file replaces
/// standard output or standard error, truncated or appended.
#[derive(Debug, PartialEq, Eq)]
pub struct FileRedirect {
    pub to_stderr: bool,
    pub file: String,
    pub append: bool,
}

/// Ghost image of a planned redirection.
pub ghost struct FileRedirectV {
    pub to_stderr: bool,
    pub file: Seq<char>,
    pub append: bool,
}

impl View for FileRedirect {
    type V = FileRedirectV;

    open spec fn view(&self) -> FileRedirectV {
        FileRedirectV { to_stderr: self.to_stderr, file: self.file@, append: self.append }
    }
}

/// How a redirection descriptor must be carried out, or the report that the
/// form is unsupported: only files, attached to standard output or standard
/// error, can be targets.
pub open spec fn redirect_plan_spec(r: RedirectV) -> Result<FileRedirectV, MessageV> {
    match r.to {
        RedirectToV::File(f) => match r.from {
            Fd::Stdout => Ok(
                FileRedirectV { to_stderr: false, file: f, append: r.r_type is Append },
            ),
            Fd::Stderr => Ok(FileRedirectV { to_stderr: true, file: f, append: r.r_type is Append }),
            _ => Err(MessageV::Stderr("Internal commands do not work with arbitrary fds\n"@)),
        },
        RedirectToV::Fd(_) => Err(MessageV::Stderr("Only redirections to files are supported atm\n"@)),
    }
}

/// Plans one redirection, rejecting the unsupported forms.
pub fn plan_redirect(r: &Redirect) -> (res: Result<FileRedirect, Message>)
    ensures
        match res {
            Ok(f) => redirect_plan_spec(r@) == Ok::<FileRedirectV, MessageV>(f@),
            Err(m) => redirect_plan_spec(r@) == Err::<FileRedirectV, MessageV>(m@),
        },
{
    match &r.to {
        RedirectTo::File(f) => {
            let append = matches!(r.r_type, RedirectType::Append);
            match r.from {
                Fd::Stdout => Ok(FileRedirect { to_stderr: false, file: f.clone(), append }),
                Fd::Stderr => Ok(FileRedirect { to_stderr: true, file: f.clone(), append }),
                _ => Err(
                    Message::Stderr(
                        String::from_str("Internal commands do not work with arbitrary fds\n"),
                    ),
                ),
            }
        },
        RedirectTo::Fd(_) => Err(
            Message::Stderr(String::from_str("Only redirections to files are supported atm\n")),
        ),
    }
}

/// One builtin stage of a pipeline: its identity, arguments, and
/// redirection. Streams are attached outside the library.
#[derive(Debug)]
pub struct InternalCommand {
    pub name: InternalCommandName,
    pub args: Vec<String>,
    pub redirect: Option<Redirect>,
}

/// One spawned stage of a pipeline: the program, arguments, and redirection.
#[derive(Debug)]
pub struct ExternalCommand {
    pub program: String,
    pub args: Vec<String>,
    pub redirect: Option<Redirect>,
}

/// One classified pipeline stage.
#[derive(Debug)]
pub enum Stage {
    Internal(InternalCommand),
    External(ExternalCommand),
}

/// Ghost image of a classified stage.
pub ghost enum StageV {
    Internal {
        name: InternalCommandName,
        args: Seq<Seq<char>>,
        redirect: Option<RedirectV>,
    },
    External {
        program: Seq<char>,
        args: Seq<Seq<char>>,
        redirect: Option<RedirectV>,
    },
}

impl View for Stage {
    type V = StageV;

    open spec fn view(&self) -> StageV {
        match self {
            Stage::Internal(c) => StageV::Internal {
                name: c.name,
                args: c.args.deep_view(),
                redirect: crate::parser::opt_redirect_view(c.redirect),
            },
            Stage::External(c) => StageV::External {
                program: c.program@,
                args: c.args.deep_view(),
                redirect: crate::parser::opt_redirect_view(c.redirect),
            },
        }
    }
}

/// How one parsed command is classified: a builtin name makes an internal
/// stage, anything else an external one.
pub open spec fn stage_of(c: CommandV) -> StageV {
    match builtin_of(c.name) {
        Some(b) => StageV::Internal { name: b, args: c.args, redirect: c.redirect },
        None => StageV::External { program: c.name, args: c.args, redirect: c.redirect },
    }
}

/// Some command of the pipeline is the `exit` builtin.
pub open spec fn has_exit(cmds: Seq<CommandV>) -> bool {
    exists|i: int|
        0 <= i < cmds.len() && builtin_of(#[trigger] cmds[i].name) == Some(
            InternalCommandName::Exit,
        )
}

/// Classifies a parsed pipeline into stages and decides whether it asks the
/// shell to exit.
#[verifier::loop_isolation(false)]
pub fn classify(pipeline: Vec<Command>) -> (r: (Vec<Stage>, RunResult))
    ensures
        r.0@.map_values(|s: Stage| s@) == pipeline@.map_values(|c: Command| c@).map_values(
            |c: CommandV| stage_of(c),
        ),
        r.1 == (if has_exit(pipeline@.map_values(|c: Command| c@)) {
            RunResult::Exit
        } else {
            RunResult::Continue
        }),
{
    let ghost cvs = pipeline@.map_values(|c: Command| c@);
    let mut stages: Vec<Stage> = Vec::new();
    let mut exit = false;
    let mut rest = pipeline;
    let mut i: usize = 0;
    let n = rest.len();
    proof {
        assert(stages@.map_values(|s: Stage| s@) =~= Seq::<StageV>::empty());
        assert(cvs.take(0) =~= Seq::<CommandV>::empty());
    }
    while i < n
        invariant
            i <= n,
            n == rest.len(),
            rest@.map_values(|c: Command| c@) == cvs,
            stages@.map_values(|s: Stage| s@) == cvs.take(i as int).map_values(
                |c: CommandV| stage_of(c),
            ),
            exit == has_exit(cvs.take(i as int)),
        decreases n - i,
    {
        let ghost pre_stages = stages@.map_values(|s: Stage| s@);
        let c = &rest[i];
        let stage = match InternalCommandName::from_str(c.name.as_str()) {
            Some(b) => {
                if matches!(b, InternalCommandName::Exit) {
                    exit = true;
                }
                Stage::Internal(
                    InternalCommand {
                        name: b,
                        args: clone_string_vec(&c.args),
                        redirect: clone_redirect(&c.redirect),
                    },
                )
            },
            None => Stage::External(
                ExternalCommand {
                    program: c.name.clone(),
                    args: clone_string_vec(&c.args),
                    redirect: clone_redirect(&c.redirect),
                },
            ),
        };
        stages.push(stage);
        proof {
            assert(cvs[i as int] == rest@[i as int]@);
            assert(cvs.take(i as int + 1).drop_last() =~= cvs.take(i as int));
            assert(cvs.take(i as int + 1).last() == cvs[i as int]);
            assert(stages@.map_values(|s: Stage| s@) =~= pre_stages.push(stage_of(cvs[i as int])));
            assert(cvs.take(i as int + 1).map_values(|c: CommandV| stage_of(c)) =~= cvs.take(
                i as int,
            ).map_values(|c: CommandV| stage_of(c)).push(stage_of(cvs[i as int])));
            if exit {
                assert(has_exit(cvs.take(i as int + 1))) by {
                    if !has_exit(cvs.take(i as int)) {
                        assert(cvs.take(i as int + 1)[i as int] == cvs[i as int]);
                    }
                }
            } else {
                assert(!has_exit(cvs.take(i as int + 1))) by {
                    if has_exit(cvs.take(i as int + 1)) {
                        let k = choose|k: int|
                            0 <= k < cvs.take(i as int + 1).len() && builtin_of(
                                #[trigger] cvs.take(i as int + 1)[k].name,
                            ) == Some(InternalCommandName::Exit);
                        if k < i {
                            assert(cvs.take(i as int)[k] == cvs.take(i as int + 1)[k]);
                            assert(has_exit(cvs.take(i as int)));
                        }
                    }
                }
            }
        }
        i = i + 1;
    }
    proof {
        assert(cvs.take(n as int) =~= cvs);
    }
    let rr = if exit {
        RunResult::Exit
    } else {
        RunResult::Continue
    };
    (stages, rr)
}

/// A copy of a string vector.
fn clone_string_vec(v: &Vec<String>) -> (r: Vec<String>)
    ensures
        r.deep_view() == v.deep_view(),
{
    let mut r: Vec<String> = Vec::new();
    let mut i: usize = 0;
    while i < v.len()
        invariant
            i <= v@.len(),
            r.deep_view() == v.deep_view().take(i as int),
        decreases v@.len() - i,
    {
        let ghost pre = r.deep_view();
        r.push(v[i].clone());
        proof {
            assert(r.deep_view() =~= pre.push(v@[i as int]@));
            assert(v.deep_view().take(i as int + 1) =~= v.deep_view().take(i as int).push(
                v@[i as int]@,
            ));
        }
        i = i + 1;
    }
    proof {
        assert(v.deep_view().take(v@.len() as int) =~= v.deep_view());
    }
    r
}

/// A copy of an optional redirection.
fn clone_redirect(o: &Option<Redirect>) -> (r: Option<Redirect>)
    ensures
        crate::parser::opt_redirect_view(r) == crate::parser::opt_redirect_view(*o),
{
    match o {
        None => None,
        Some(rd) => Some(
            Redirect {
                r_type: rd.r_type,
                from: rd.from,
                to: match &rd.to {
                    RedirectTo::File(f) => RedirectTo::File(f.clone()),
                    RedirectTo::Fd(fd) => RedirectTo::Fd(*fd),
                },
            },
        ),
    }
}

/// Parses one input line and classifies the resulting pipeline, handing back
/// the stages to run and whether the shell must exit afterwards.
pub fn run_from_input(input: &str) -> (r: Result<(Vec<Stage>, RunResult), ParseError>)
    ensures
        match parse_spec(input@) {
            Ok(cvs) => match r {
                Ok(p) => p.0@.map_values(|s: Stage| s@) == cvs.map_values(
                    |c: CommandV| stage_of(c),
                ) && p.1 == (if has_exit(cvs) {
                    RunResult::Exit
                } else {
                    RunResult::Continue
                }),
                _ => false,
            },
            Err(e) => r == Err::<(Vec<Stage>, RunResult), ParseError>(e),
        },
{
    let parser = CommandParser::new(input);
    match parser.parse() {
        Err(e) => Err(e),
        Ok(pipeline) => Ok(classify(pipeline)),
    }
}

} // verus!
