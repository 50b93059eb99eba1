use vshell::command_trie::CommandsTrie;
use vshell::input_state::InputDisplay;
use vshell::history::History;
use vshell::input_state::Effect;
use vshell::input_state::InputState;

fn type_line(ed: &mut InputState, s: &str) {
    for c in s.chars() {
        ed.handle_char(c);
    }
}

#[test]
fn up_restores_submitted_line() {
    let mut history = History::new();
    let mut ed = InputState::new();
    type_line(&mut ed, "abc");
    ed.handle_newline();
    history.push(ed.submit());

    let mut ed2 = InputState::new();
    ed2.handle_up(&history);
    assert_eq!(ed2.current_input(), "abc");
    assert_eq!(ed2.cursor_position(), 3);
    assert_eq!(ed2.submit(), "abc");
}

#[test]
fn down_past_newest_clears_buffer() {
    let mut history = History::new();
    history.push("one".to_string());
    let mut ed = InputState::new();
    ed.handle_up(&history);
    assert_eq!(ed.current_input(), "one");
    ed.handle_down(&history);
    assert_eq!(ed.current_input(), "");
}

#[test]
fn typing_echoes_at_end_and_redraws_elsewhere() {
    let mut ed = InputState::new();
    let es = ed.handle_char('a');
    assert_eq!(es, vec![Effect::Print("a".to_string())]);
    ed.handle_left();
    let es2 = ed.handle_char('b');
    assert_eq!(ed.current_input(), "ba");
    assert!(matches!(es2[0], Effect::CarriageReturn));
}

#[test]
fn backspace_deletes_before_cursor() {
    let mut ed = InputState::new();
    type_line(&mut ed, "ab");
    ed.handle_backspace();
    assert_eq!(ed.current_input(), "a");
    assert_eq!(ed.cursor_position(), 1);
    let es = {
        let mut fresh = InputState::new();
        fresh.handle_backspace()
    };
    assert!(es.is_empty());
}

#[test]
fn arrows_move_within_bounds() {
    let mut ed = InputState::new();
    type_line(&mut ed, "xy");
    assert_eq!(ed.handle_right(), vec![]);
    assert_eq!(ed.handle_left(), vec![Effect::MoveLeft(1)]);
    assert_eq!(ed.handle_left(), vec![Effect::MoveLeft(1)]);
    assert_eq!(ed.handle_left(), vec![]);
    assert_eq!(ed.handle_right(), vec![Effect::MoveRight(1)]);
}

#[test]
fn tab_on_unique_prefix_appends_rest_and_space() {
    let mut trie = CommandsTrie::new();
    trie.insert("echo");
    let mut ed = InputState::new();
    type_line(&mut ed, "ec");
    let es = ed.handle_tab(&trie);
    assert_eq!(ed.current_input(), "echo ");
    assert_eq!(ed.cursor_position(), 5);
    assert_eq!(*es.last().unwrap(), Effect::Print("ho ".to_string()));
}

#[test]
fn tab_on_ambiguous_prefix_rings_then_lists() {
    let mut trie = CommandsTrie::new();
    trie.insert("echo");
    trie.insert("exit");
    let mut ed = InputState::new();
    type_line(&mut ed, "e");
    let first = ed.handle_tab(&trie);
    assert_eq!(first, vec![Effect::Bell]);
    let second = ed.handle_tab(&trie);
    assert!(matches!(second[0], Effect::CrLf));
    assert_eq!(second[1], Effect::Print("echo  exit".to_string()));
    assert_eq!(ed.current_input(), "e");
}

#[test]
fn tab_with_no_match_rings_without_arming() {
    let trie = CommandsTrie::new();
    let mut ed = InputState::new();
    type_line(&mut ed, "zz");
    assert_eq!(ed.handle_tab(&trie), vec![Effect::Bell]);
    assert_eq!(ed.handle_tab(&trie), vec![Effect::Bell]);
}

#[test]
fn prompt_and_newline_effects() {
    let mut ed = InputState::new();
    assert_eq!(ed.begin(), vec![Effect::Print("$ ".to_string())]);
    assert_eq!(ed.handle_newline(), vec![Effect::CrLf]);
}

#[test]
fn display_navigation_and_editing_copy() {
    let mut history = History::new();
    history.push("first".to_string());
    history.push("second".to_string());
    let mut d = InputDisplay::new();
    assert_eq!(d.cur_input(), "");
    d.move_up(&history);
    assert_eq!(d.cur_input(), "second");
    d.move_up(&history);
    assert_eq!(d.cur_input(), "first");
    d.move_up(&history);
    assert_eq!(d.cur_input(), "first");
    d.move_down(&history);
    assert_eq!(d.cur_input(), "second");
    d.modify_input();
    assert_eq!(d.cur_input(), "second");
    d.move_down(&history);
    assert_eq!(d.cur_input(), "second");
}
