//! The line editor state machine: the input buffer, the cursor column, the
//! history selection, and the bell-armed flag of the double-tab completion
//! protocol.
//!
//! Each key handler mutates the state and returns the list of terminal
//! effects to perform; encoding those effects as control sequences and
//! writing them to the terminal happen outside the library.

use vstd::prelude::*;
use vstd::string::StrSliceExecFns;
use vstd::string::StringExecFns;

use crate::command_trie::CommandsTrie;
use crate::command_trie::CompletionResponse;
use crate::history::History;
use crate::strutil::chars_of;
use crate::strutil::push_char;
use crate::strutil::string_of_chars;

verus! {

/// What the editor currently shows: fresh input, or one history entry.
#[derive(Debug)]
pub enum Selected {
    Input,
    History { index: usize, entry: String },
}

/// Ghost image of the selection.
#[verifier::ext_equal]
pub ghost enum SelectedV {
    Input,
    HistoryAt { index: int, entry: Seq<char> },
}

impl View for Selected {
    type V = SelectedV;

    open spec fn view(&self) -> SelectedV {
        match self {
            Selected::Input => SelectedV::Input,
            Selected::History { index, entry } => SelectedV::HistoryAt {
                index: *index as int,
                entry: entry@,
            },
        }
    }
}

/// Ghost image of the display: the typed input and the selection shadowing
/// it.
#[verifier::ext_equal]
pub ghost struct InputDisplayV {
    pub input: Seq<char>,
    pub selected: SelectedV,
}

/// The text the editor currently shows.
pub open spec fn cur_input_v(d: InputDisplayV) -> Seq<char> {
    match d.selected {
        SelectedV::Input => d.input,
        SelectedV::HistoryAt { entry, .. } => entry,
    }
}

/// The selection points into the given history and shadows its entry.
pub open spec fn display_ok(d: InputDisplayV, h: Seq<Seq<char>>) -> bool {
    match d.selected {
        SelectedV::Input => true,
        SelectedV::HistoryAt { index, entry } => 0 <= index < h.len() && entry == h[index],
    }
}

/// Moving up: from fresh input to the newest entry, within history one entry
/// back, clamped at the oldest.
pub open spec fn up_v(d: InputDisplayV, h: Seq<Seq<char>>) -> InputDisplayV {
    match d.selected {
        SelectedV::Input => if h.len() > 0 {
            InputDisplayV {
                input: d.input,
                selected: SelectedV::HistoryAt { index: h.len() - 1, entry: h.last() },
            }
        } else {
            d
        },
        SelectedV::HistoryAt { index, .. } => {
            let ni = if index > 0 {
                index - 1
            } else {
                0
            };
            InputDisplayV { input: d.input, selected: SelectedV::HistoryAt { index: ni, entry: h[ni] } }
        },
    }
}

/// Moving down: within history one entry forward; past the newest entry the
/// editor returns to fresh, empty input.
pub open spec fn down_v(d: InputDisplayV, h: Seq<Seq<char>>) -> InputDisplayV {
    match d.selected {
        SelectedV::Input => d,
        SelectedV::HistoryAt { index, .. } => if index == h.len() - 1 {
            InputDisplayV { input: Seq::empty(), selected: SelectedV::Input }
        } else {
            InputDisplayV {
                input: d.input,
                selected: SelectedV::HistoryAt { index: index + 1, entry: h[index + 1] },
            }
        },
    }
}

/// The display half of the editor.
#[derive(Debug)]
pub struct InputDisplay {
    input: String,
    selected: Selected,
}

impl View for InputDisplay {
    type V = InputDisplayV;

    closed spec fn view(&self) -> InputDisplayV {
        InputDisplayV { input: self.input@, selected: self.selected@ }
    }
}

impl InputDisplay {
    /// A display showing empty fresh input.
    pub fn new() -> (r: InputDisplay)
        ensures
            r@ == (InputDisplayV { input: Seq::<char>::empty(), selected: SelectedV::Input }),
    {
        let r = InputDisplay { input: String::new(), selected: Selected::Input };
        proof {
            assert(r@.input =~= Seq::<char>::empty());
        }
        r
    }

    /// Selects the previous history entry.
    pub fn move_up(&mut self, history: &History)
        requires
            display_ok(old(self)@, history.entries()),
        ensures
            final(self)@ == up_v(old(self)@, history.entries()),
            display_ok(final(self)@, history.entries()),
    {
        match &self.selected {
            Selected::Input => {
                match history.back() {
                    Some(last) => {
                        let entry = last.clone();
                        self.selected = Selected::History {
                            index: history.len() - 1,
                            entry,
                        };
                    },
                    None => {},
                }
            },
            Selected::History { index, .. } => {
                let i = *index;
                let ni = if i > 0 {
                    i - 1
                } else {
                    0
                };
                let entry = history.get(ni).clone();
                self.selected = Selected::History { index: ni, entry };
            },
        }
    }

    /// Selects the next history entry, or returns to fresh empty input past
    /// the newest one.
    pub fn move_down(&mut self, history: &History)
        requires
            display_ok(old(self)@, history.entries()),
        ensures
            final(self)@ == down_v(old(self)@, history.entries()),
            display_ok(final(self)@, history.entries()),
    {
        match &self.selected {
            Selected::Input => {},
            Selected::History { index, .. } => {
                let i = *index;
                if i == history.len() - 1 {
                    self.input = String::new();
                    self.selected = Selected::Input;
                    proof {
                        assert(self@.input =~= Seq::<char>::empty());
                    }
                } else {
                    let entry = history.get(i + 1).clone();
                    self.selected = Selected::History { index: i + 1, entry };
                }
            },
        }
    }

    /// Makes the shown text the fresh input, copying a viewed history entry
    /// into the buffer so it can be edited.
    pub fn modify_input(&mut self)
        ensures
            final(self)@ == (InputDisplayV {
                input: cur_input_v(old(self)@),
                selected: SelectedV::Input,
            }),
    {
        match &self.selected {
            Selected::Input => {},
            Selected::History { entry, .. } => {
                self.input = entry.clone();
                self.selected = Selected::Input;
            },
        }
    }

    /// Replaces the fresh input outright.
    pub fn replace_input(&mut self, s: String)
        ensures
            final(self)@ == (InputDisplayV { input: s@, selected: SelectedV::Input }),
    {
        self.input = s;
        self.selected = Selected::Input;
    }

    /// The text currently shown.
    pub fn cur_input(&self) -> (r: &str)
        ensures
            r@ == cur_input_v(self@),
    {
        match &self.selected {
            Selected::Input => self.input.as_str(),
            Selected::History { entry, .. } => entry.as_str(),
        }
    }
}

/// One terminal action a key handler asks for.
#[derive(Debug, PartialEq, Eq)]
pub enum Effect {
    /// Write this text at the cursor.
    Print(String),
    /// Ring the terminal bell.
    Bell,
    /// Write a carriage return and a line feed.
    CrLf,
    /// Return the cursor to the start of the line.
    CarriageReturn,
    /// Clear the current line.
    ClearLine,
    /// Move the cursor left this many columns.
    MoveLeft(usize),
    /// Move the cursor right this many columns.
    MoveRight(usize),
}

/// Ghost image of a terminal action.
#[verifier::ext_equal]
pub ghost enum EffectV {
    Print(Seq<char>),
    Bell,
    CrLf,
    CarriageReturn,
    ClearLine,
    MoveLeft(int),
    MoveRight(int),
}

impl View for Effect {
    type V = EffectV;

    open spec fn view(&self) -> EffectV {
        match self {
            Effect::Print(s) => EffectV::Print(s@),
            Effect::Bell => EffectV::Bell,
            Effect::CrLf => EffectV::CrLf,
            Effect::CarriageReturn => EffectV::CarriageReturn,
            Effect::ClearLine => EffectV::ClearLine,
            Effect::MoveLeft(n) => EffectV::MoveLeft(*n as int),
            Effect::MoveRight(n) => EffectV::MoveRight(*n as int),
        }
    }
}

/// Ghost image of an effect list.
pub open spec fn effects_view(es: Seq<Effect>) -> Seq<EffectV> {
    es.map_values(|e: Effect| e@)
}

/// The redraw sequence: return to the line start, clear it, print the prompt
/// and the buffer, and step back to the cursor column if it is not at the
/// end.
pub open spec fn redraw_v(buf: Seq<char>, cursor: int) -> Seq<EffectV> {
    let base = seq![
        EffectV::CarriageReturn,
        EffectV::ClearLine,
        EffectV::Print("$ "@),
        EffectV::Print(buf),
    ];
    if cursor < buf.len() {
        base.push(EffectV::MoveLeft(buf.len() - cursor))
    } else {
        base
    }
}

/// The completion candidates joined by two spaces, as the double-tab
/// listing shows them.
pub open spec fn join_two_spaces(items: Seq<Seq<char>>) -> Seq<char>
    decreases items.len(),
{
    if items.len() == 0 {
        Seq::empty()
    } else if items.len() == 1 {
        items[0]
    } else {
        items[0] + seq![' ', ' '] + join_two_spaces(items.skip(1))
    }
}

/// Joins completion candidates with two spaces.
#[verifier::loop_isolation(false)]
fn join_with_two_spaces(items: &Vec<String>) -> (r: String)
    ensures
        r@ == join_two_spaces(items.deep_view()),
{
    let mut out = String::new();
    let n = items.len();
    let ghost iv = items.deep_view();
    proof {
        assert(out@ =~= Seq::<char>::empty());
        assert(iv.skip(0) =~= iv);
    }
    let mut i: usize = 0;
    while i < n
        invariant
            i <= n,
            join_two_spaces(iv) == out@ + join_two_spaces(iv.skip(i as int)),
        decreases n - i,
    {
        out.append(items[i].as_str());
        proof {
            assert(iv.skip(i as int)[0] == iv[i as int]);
            assert(iv.skip(i as int).skip(1) =~= iv.skip(i as int + 1));
            assert(iv.skip(i as int).len() == iv.len() - i);
        }
        if i + 1 < n {
            push_char(&mut out, ' ');
            push_char(&mut out, ' ');
        }
        i = i + 1;
    }
    proof {
        assert(join_two_spaces(iv.skip(n as int)) =~= Seq::<char>::empty());
        assert(join_two_spaces(iv) =~= out@);
    }
    out
}

/// Ghost image of the whole editor.
#[verifier::ext_equal]
pub ghost struct InputStateV {
    pub display: InputDisplayV,
    pub cursor: int,
    pub bell: bool,
}

/// The cursor stays within the shown text.
pub open spec fn cursor_ok(s: InputStateV) -> bool {
    0 <= s.cursor <= cur_input_v(s.display).len()
}

/// The state after one Tab press, given the completion response.
pub open spec fn tab_state_v(s: InputStateV, resp: CompletionResponse) -> InputStateV {
    match resp {
        CompletionResponse::NoMatch => s,
        CompletionResponse::Single(rest, leaf) => {
            let add = rest@ + if leaf {
                seq![' ']
            } else {
                Seq::<char>::empty()
            };
            let nb = cur_input_v(s.display) + add;
            InputStateV {
                display: InputDisplayV { input: nb, selected: SelectedV::Input },
                cursor: nb.len() as int,
                bell: false,
            }
        },
        CompletionResponse::Multiple(_) => InputStateV {
            display: s.display,
            cursor: s.cursor,
            bell: !s.bell,
        },
    }
}

/// The effects of one Tab press, given the completion response.
pub open spec fn tab_effects_v(s: InputStateV, resp: CompletionResponse) -> Seq<EffectV> {
    match resp {
        CompletionResponse::NoMatch => seq![EffectV::Bell],
        CompletionResponse::Single(rest, leaf) => {
            let add = rest@ + if leaf {
                seq![' ']
            } else {
                Seq::<char>::empty()
            };
            let cur = cur_input_v(s.display);
            let pre = if s.cursor < cur.len() {
                seq![EffectV::MoveRight(cur.len() - s.cursor)]
            } else {
                Seq::<EffectV>::empty()
            };
            pre + seq![EffectV::Print(add)]
        },
        CompletionResponse::Multiple(items) => if s.bell {
            seq![
                EffectV::CrLf,
                EffectV::Print(join_two_spaces(items.deep_view())),
                EffectV::Print("\n"@),
            ] + redraw_v(cur_input_v(s.display), s.cursor)
        } else {
            seq![EffectV::Bell]
        },
    }
}

/// Inserting one character at the cursor.
pub open spec fn char_v(s: InputStateV, c: char) -> InputStateV {
    let nb = cur_input_v(s.display).insert(s.cursor, c);
    InputStateV {
        display: InputDisplayV { input: nb, selected: SelectedV::Input },
        cursor: s.cursor + 1,
        bell: false,
    }
}

/// The effects of inserting one character: echo it at the end, redraw
/// elsewhere.
pub open spec fn char_effects_v(s: InputStateV, c: char) -> Seq<EffectV> {
    let ns = char_v(s, c);
    if ns.cursor == cur_input_v(ns.display).len() {
        seq![EffectV::Print(seq![c])]
    } else {
        redraw_v(cur_input_v(ns.display), ns.cursor)
    }
}

/// Deleting the character before the cursor, when there is one.
pub open spec fn backspace_v(s: InputStateV) -> InputStateV {
    if s.cursor == 0 {
        InputStateV { display: s.display, cursor: s.cursor, bell: false }
    } else {
        let nb = cur_input_v(s.display).remove(s.cursor - 1);
        InputStateV {
            display: InputDisplayV { input: nb, selected: SelectedV::Input },
            cursor: s.cursor - 1,
            bell: false,
        }
    }
}

/// After a line is submitted and pushed onto the history, pressing Up in a
/// fresh editor restores exactly that line; the Up handler then puts the
/// cursor at its end, since it sets the cursor to the shown text's length.
pub proof fn lemma_up_restores_submitted(d: InputDisplayV, h: Seq<Seq<char>>, line: Seq<char>)
    requires
        d.selected is Input,
    ensures
        cur_input_v(up_v(d, h.push(line))) == line,
        up_v(d, h.push(line)).selected == (SelectedV::HistoryAt {
            index: h.len() as int,
            entry: line,
        }),
{
    assert(h.push(line).last() == line);
    assert(h.push(line).len() == h.len() + 1);
}

/// Pressing Tab on a prefix that exactly one stored name extends appends the
/// rest of that name and a trailing space, and moves the cursor to the end.
pub proof fn lemma_tab_unique_completion(
    m: Map<Seq<char>, Option<Seq<char>>>,
    name: Seq<char>,
    s: InputStateV,
    resp: CompletionResponse,
)
    requires
        m.contains_key(name),
        forall|k: Seq<char>|
            #[trigger] m.contains_key(k) && cur_input_v(s.display).is_prefix_of(k) ==> k == name,
        cur_input_v(s.display).is_prefix_of(name),
        cur_input_v(s.display).len() < name.len(),
        CommandsTrie::complete_post(m, cur_input_v(s.display), resp),
    ensures
        cur_input_v(tab_state_v(s, resp).display) == name + seq![' '],
        tab_state_v(s, resp).cursor == name.len() + 1,
        tab_effects_v(s, resp).last() == EffectV::Print(
            name.skip(cur_input_v(s.display).len() as int) + seq![' '],
        ),
{
    let p = cur_input_v(s.display);
    crate::command_trie::lemma_complete_unique_prefix(m, name, p, resp);
    match resp {
        CompletionResponse::Single(rest, leaf) => {
            assert(leaf);
            let add = rest@ + seq![' '];
            assert(p + add =~= name + seq![' ']) by {
                assert(p + name.skip(p.len() as int) =~= name);
            }
            let pre = if s.cursor < p.len() {
                seq![EffectV::MoveRight(p.len() - s.cursor)]
            } else {
                Seq::<EffectV>::empty()
            };
            assert(tab_effects_v(s, resp) == pre + seq![EffectV::Print(add)]);
            assert((pre + seq![EffectV::Print(add)]).last() == EffectV::Print(add));
        },
        _ => {
            assert(false);
        },
    }
}

/// Pressing Tab on a prefix that two stored, diverging names extend rings
/// the bell and arms it the first time; the second press disarms it and
/// lists the candidates after a fresh line.
pub proof fn lemma_tab_ambiguous_protocol(
    m: Map<Seq<char>, Option<Seq<char>>>,
    n1: Seq<char>,
    n2: Seq<char>,
    d: Seq<char>,
    s: InputStateV,
    resp: CompletionResponse,
)
    requires
        m.contains_key(n1),
        m.contains_key(n2),
        forall|k: Seq<char>|
            #[trigger] m.contains_key(k) && cur_input_v(s.display).is_prefix_of(k) ==> k == n1
                || k == n2,
        cur_input_v(s.display).is_prefix_of(d),
        d.len() < n1.len(),
        d.len() < n2.len(),
        d == n1.take(d.len() as int),
        d == n2.take(d.len() as int),
        n1[d.len() as int] != n2[d.len() as int],
        CommandsTrie::complete_post(m, cur_input_v(s.display), resp),
    ensures
        !s.bell ==> tab_effects_v(s, resp) == seq![EffectV::Bell] && tab_state_v(s, resp).bell,
        s.bell ==> tab_effects_v(s, resp)[0] == EffectV::CrLf && !tab_state_v(s, resp).bell,
{
    let p = cur_input_v(s.display);
    crate::command_trie::lemma_complete_branching_pair(m, p, n1, n2, d, resp);
    match resp {
        CompletionResponse::Multiple(items) => {
            if s.bell {
                let listed = seq![
                    EffectV::CrLf,
                    EffectV::Print(join_two_spaces(items.deep_view())),
                    EffectV::Print("\n"@),
                ] + redraw_v(cur_input_v(s.display), s.cursor);
                assert(tab_effects_v(s, resp) == listed);
                assert(listed[0] == EffectV::CrLf);
            }
        },
        _ => {
            assert(false);
        },
    }
}

/// The editor state.
#[derive(Debug)]
pub struct InputState {
    input_display: InputDisplay,
    cursor_pos: usize,
    rang_bell: bool,
}

impl View for InputState {
    type V = InputStateV;

    closed spec fn view(&self) -> InputStateV {
        InputStateV {
            display: self.input_display@,
            cursor: self.cursor_pos as int,
            bell: self.rang_bell,
        }
    }
}

impl InputState {
    /// A fresh editor: empty input, cursor at the start, bell not armed.
    pub fn new() -> (r: InputState)
        ensures
            r@ == (InputStateV {
                display: InputDisplayV { input: Seq::<char>::empty(), selected: SelectedV::Input },
                cursor: 0,
                bell: false,
            }),
            cursor_ok(r@),
    {
        InputState { input_display: InputDisplay::new(), cursor_pos: 0, rang_bell: false }
    }

    /// Prints the prompt.
    pub fn begin(&self) -> (r: Vec<Effect>)
        ensures
            effects_view(r@) == seq![EffectV::Print("$ "@)],
    {
        let mut es: Vec<Effect> = Vec::new();
        es.push(Effect::Print(String::from_str("$ ")));
        proof {
            assert(effects_view(es@) =~= seq![EffectV::Print("$ "@)]);
        }
        es
    }

    /// Ends the edit: disarms the bell and moves to the next line.
    pub fn handle_newline(&mut self) -> (r: Vec<Effect>)
        ensures
            final(self)@ == (InputStateV {
                display: old(self)@.display,
                cursor: old(self)@.cursor,
                bell: false,
            }),
            effects_view(r@) == seq![EffectV::CrLf],
    {
        self.rang_bell = false;
        let mut es: Vec<Effect> = Vec::new();
        es.push(Effect::CrLf);
        proof {
            assert(effects_view(es@) =~= seq![EffectV::CrLf]);
        }
        es
    }

    /// Inserts one typed character at the cursor.
    pub fn handle_char(&mut self, c: char) -> (r: Vec<Effect>)
        requires
            cursor_ok(old(self)@),
            cur_input_v(old(self)@.display).len() < usize::MAX,
        ensures
            final(self)@ == char_v(old(self)@, c),
            cursor_ok(final(self)@),
            effects_view(r@) == char_effects_v(old(self)@, c),
    {
        self.rang_bell = false;
        let mut cs = chars_of(self.input_display.cur_input());
        cs.insert(self.cursor_pos, c);
        let nb = string_of_chars(cs.as_slice());
        let n = cs.len();
        self.input_display.replace_input(nb);
        self.cursor_pos = self.cursor_pos + 1;
        if self.cursor_pos == n {
            let mut one = String::new();
            push_char(&mut one, c);
            let mut es: Vec<Effect> = Vec::new();
            es.push(Effect::Print(one));
            proof {
                assert(one@ =~= seq![c]);
                assert(effects_view(es@) =~= seq![EffectV::Print(seq![c])]);
            }
            es
        } else {
            self.redraw()
        }
    }

    /// Deletes the character before the cursor.
    pub fn handle_backspace(&mut self) -> (r: Vec<Effect>)
        requires
            cursor_ok(old(self)@),
        ensures
            final(self)@ == backspace_v(old(self)@),
            cursor_ok(final(self)@),
            effects_view(r@) == (if old(self)@.cursor == 0 {
                Seq::<EffectV>::empty()
            } else {
                redraw_v(
                    cur_input_v(backspace_v(old(self)@).display),
                    backspace_v(old(self)@).cursor,
                )
            }),
    {
        self.rang_bell = false;
        if self.cursor_pos == 0 {
            let es: Vec<Effect> = Vec::new();
            proof {
                assert(effects_view(es@) =~= Seq::<EffectV>::empty());
            }
            return es;
        }
        self.cursor_pos = self.cursor_pos - 1;
        let mut cs = chars_of(self.input_display.cur_input());
        cs.remove(self.cursor_pos);
        let nb = string_of_chars(cs.as_slice());
        self.input_display.replace_input(nb);
        self.redraw()
    }

    /// Moves the cursor one column left.
    pub fn handle_left(&mut self) -> (r: Vec<Effect>)
        requires
            cursor_ok(old(self)@),
        ensures
            final(self)@ == (InputStateV {
                display: old(self)@.display,
                cursor: if old(self)@.cursor == 0 {
                    0
                } else {
                    old(self)@.cursor - 1
                },
                bell: false,
            }),
            cursor_ok(final(self)@),
            effects_view(r@) == (if old(self)@.cursor == 0 {
                Seq::<EffectV>::empty()
            } else {
                seq![EffectV::MoveLeft(1)]
            }),
    {
        self.rang_bell = false;
        let mut es: Vec<Effect> = Vec::new();
        if self.cursor_pos == 0 {
            proof {
                assert(effects_view(es@) =~= Seq::<EffectV>::empty());
            }
            return es;
        }
        self.cursor_pos = self.cursor_pos - 1;
        es.push(Effect::MoveLeft(1));
        proof {
            assert(effects_view(es@) =~= seq![EffectV::MoveLeft(1)]);
        }
        es
    }

    /// Moves the cursor one column right.
    pub fn handle_right(&mut self) -> (r: Vec<Effect>)
        requires
            cursor_ok(old(self)@),
        ensures
            final(self)@ == (InputStateV {
                display: old(self)@.display,
                cursor: if old(self)@.cursor == cur_input_v(old(self)@.display).len() {
                    old(self)@.cursor
                } else {
                    old(self)@.cursor + 1
                },
                bell: false,
            }),
            cursor_ok(final(self)@),
            effects_view(r@) == (if old(self)@.cursor == cur_input_v(old(self)@.display).len() {
                Seq::<EffectV>::empty()
            } else {
                seq![EffectV::MoveRight(1)]
            }),
    {
        self.rang_bell = false;
        let mut es: Vec<Effect> = Vec::new();
        let n = self.input_display.cur_input().unicode_len();
        if self.cursor_pos == n {
            proof {
                assert(effects_view(es@) =~= Seq::<EffectV>::empty());
            }
            return es;
        }
        self.cursor_pos = self.cursor_pos + 1;
        es.push(Effect::MoveRight(1));
        proof {
            assert(effects_view(es@) =~= seq![EffectV::MoveRight(1)]);
        }
        es
    }

    /// Selects the previous history entry and redraws.
    pub fn handle_up(&mut self, history: &History) -> (r: Vec<Effect>)
        requires
            display_ok(old(self)@.display, history.entries()),
        ensures
            final(self)@ == (InputStateV {
                display: up_v(old(self)@.display, history.entries()),
                cursor: cur_input_v(up_v(old(self)@.display, history.entries())).len() as int,
                bell: false,
            }),
            cursor_ok(final(self)@),
            display_ok(final(self)@.display, history.entries()),
            effects_view(r@) == redraw_v(
                cur_input_v(up_v(old(self)@.display, history.entries())),
                cur_input_v(up_v(old(self)@.display, history.entries())).len() as int,
            ),
    {
        self.rang_bell = false;
        self.input_display.move_up(history);
        self.cursor_pos = self.input_display.cur_input().unicode_len();
        self.redraw()
    }

    /// Selects the next history entry (or fresh input) and redraws.
    pub fn handle_down(&mut self, history: &History) -> (r: Vec<Effect>)
        requires
            display_ok(old(self)@.display, history.entries()),
        ensures
            final(self)@ == (InputStateV {
                display: down_v(old(self)@.display, history.entries()),
                cursor: cur_input_v(down_v(old(self)@.display, history.entries())).len() as int,
                bell: false,
            }),
            cursor_ok(final(self)@),
            display_ok(final(self)@.display, history.entries()),
            effects_view(r@) == redraw_v(
                cur_input_v(down_v(old(self)@.display, history.entries())),
                cur_input_v(down_v(old(self)@.display, history.entries())).len() as int,
            ),
    {
        self.rang_bell = false;
        self.input_display.move_down(history);
        self.cursor_pos = self.input_display.cur_input().unicode_len();
        self.redraw()
    }

    /// Runs the completion protocol for one Tab press.
    pub fn handle_tab(&mut self, trie: &CommandsTrie) -> (r: Vec<Effect>)
        requires
            trie.wf(),
            cursor_ok(old(self)@),
        ensures
            cursor_ok(final(self)@),
            exists|resp: CompletionResponse|
                {
                    &&& #[trigger] CommandsTrie::complete_post(
                        trie@,
                        cur_input_v(old(self)@.display),
                        resp,
                    )
                    &&& final(self)@ == tab_state_v(old(self)@, resp)
                    &&& effects_view(r@) == tab_effects_v(old(self)@, resp)
                },
    {
        let resp = trie.autocomplete(self.input_display.cur_input());
        let ghost respg = resp;
        let ghost pre = self@;
        match resp {
            CompletionResponse::Multiple(matches) => {
                if self.rang_bell {
                    self.rang_bell = false;
                    let mut es: Vec<Effect> = Vec::new();
                    es.push(Effect::CrLf);
                    es.push(Effect::Print(join_with_two_spaces(&matches)));
                    es.push(Effect::Print(String::from_str("\n")));
                    let mut tail = self.redraw();
                    es.append(&mut tail);
                    proof {
                        assert(effects_view(es@) =~= tab_effects_v(pre, respg));
                        assert(self@ == tab_state_v(pre, respg));
                    }
                    es
                } else {
                    self.rang_bell = true;
                    let mut es: Vec<Effect> = Vec::new();
                    es.push(Effect::Bell);
                    proof {
                        assert(effects_view(es@) =~= seq![EffectV::Bell]);
                        assert(self@ == tab_state_v(pre, respg));
                    }
                    es
                }
            },
            CompletionResponse::Single(rest, leaf) => {
                self.rang_bell = false;
                let mut add = rest;
                if leaf {
                    push_char(&mut add, ' ');
                }
                let cur_owned = self.input_display.cur_input().to_owned();
                let n = cur_owned.as_str().unicode_len();
                let mut es: Vec<Effect> = Vec::new();
                if self.cursor_pos < n {
                    es.push(Effect::MoveRight(n - self.cursor_pos));
                }
                let mut nb = cur_owned;
                nb.append(add.as_str());
                let nn = nb.as_str().unicode_len();
                self.input_display.replace_input(nb);
                self.cursor_pos = nn;
                es.push(Effect::Print(add));
                proof {
                    assert(effects_view(es@) =~~= tab_effects_v(pre, respg));
                    assert(self@ =~~= tab_state_v(pre, respg));
                }
                es
            },
            CompletionResponse::NoMatch => {
                let mut es: Vec<Effect> = Vec::new();
                es.push(Effect::Bell);
                proof {
                    assert(effects_view(es@) =~= seq![EffectV::Bell]);
                    assert(self@ == tab_state_v(pre, respg));
                }
                es
            },
        }
    }

    /// The cursor column.
    pub fn cursor_position(&self) -> (r: usize)
        ensures
            r == self@.cursor,
    {
        self.cursor_pos
    }

    /// The text the editor currently shows.
    pub fn current_input(&self) -> (r: &str)
        ensures
            r@ == cur_input_v(self@.display),
    {
        self.input_display.cur_input()
    }

    /// The submitted line.
    pub fn submit(self) -> (r: String)
        ensures
            r@ == cur_input_v(self@.display),
    {
        match self.input_display.selected {
            Selected::Input => self.input_display.input,
            Selected::History { entry, .. } => entry,
        }
    }

    /// The redraw effects for the current state.
    fn redraw(&self) -> (r: Vec<Effect>)
        requires
            cursor_ok(self@),
        ensures
            effects_view(r@) == redraw_v(cur_input_v(self@.display), self@.cursor),
    {
        let mut es: Vec<Effect> = Vec::new();
        es.push(Effect::CarriageReturn);
        es.push(Effect::ClearLine);
        es.push(Effect::Print(String::from_str("$ ")));
        let cur = self.input_display.cur_input();
        let n = cur.unicode_len();
        es.push(Effect::Print(cur.to_owned()));
        if self.cursor_pos < n {
            es.push(Effect::MoveLeft(n - self.cursor_pos));
            proof {
                assert(effects_view(es@) =~= redraw_v(cur_input_v(self@.display), self@.cursor));
            }
        } else {
            proof {
                assert(effects_view(es@) =~= redraw_v(cur_input_v(self@.display), self@.cursor));
            }
        }
        es
    }
}

} // verus!
