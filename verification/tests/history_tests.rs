use vshell::history::History;

fn filled(lines: &[&str]) -> History {
    let mut h = History::new();
    for l in lines {
        h.push(l.to_string());
    }
    h
}

#[test]
fn push_len_get_back() {
    let mut h = History::new();
    assert_eq!(h.len(), 0);
    assert!(h.back().is_none());
    h.push("one".to_string());
    h.push("two".to_string());
    assert_eq!(h.len(), 2);
    assert_eq!(h.get(0), "one");
    assert_eq!(h.get(1), "two");
    assert_eq!(h.back().unwrap(), "two");
}

#[test]
fn write_lists_all_numbered() {
    let h = filled(&["first", "second"]);
    assert_eq!(h.write(None), "\t1  first\n\t2  second\n");
}

#[test]
fn write_with_limit_shows_last_entries() {
    let h = filled(&["a", "b", "c"]);
    assert_eq!(h.write(Some(2)), "\t2  b\n\t3  c\n");
    assert_eq!(h.write(Some(0)), "");
}

#[test]
fn write_limit_clamps_to_length() {
    let h = filled(&["a", "b"]);
    assert_eq!(h.write(Some(10)), "\t1  a\n\t2  b\n");
}

#[test]
fn render_and_load_round_trip() {
    let h = filled(&["echo hi", "pwd", "cd /tmp"]);
    let text = h.render_all();
    assert_eq!(text, "echo hi\npwd\ncd /tmp\n");
    let back = History::from_text(&text);
    assert_eq!(back.len(), 3);
    assert_eq!(back.get(0), "echo hi");
    assert_eq!(back.get(1), "pwd");
    assert_eq!(back.get(2), "cd /tmp");
}

#[test]
fn from_text_handles_missing_final_newline_and_crlf() {
    let h = History::from_text("a\r\nb");
    assert_eq!(h.len(), 2);
    assert_eq!(h.get(0), "a");
    assert_eq!(h.get(1), "b");
    assert_eq!(History::from_text("").len(), 0);
}

#[test]
fn incremental_appends_cover_everything() {
    let mut h = History::new();
    h.push("one".to_string());
    let first = h.take_unflushed();
    assert_eq!(first, "one\n");
    h.push("two".to_string());
    h.push("three".to_string());
    let second = h.take_unflushed();
    assert_eq!(second, "two\nthree\n");
    let whole = format!("{}{}", first, second);
    assert_eq!(whole, h.render_all());
}

#[test]
fn take_unflushed_twice_without_pushes_adds_nothing() {
    let mut h = filled(&["x"]);
    assert_eq!(h.take_unflushed(), "x\n");
    assert_eq!(h.take_unflushed(), "");
}

#[test]
fn merge_concatenates_entries() {
    let mut h = filled(&["a"]);
    let other = filled(&["b", "c"]);
    h.merge(other);
    assert_eq!(h.len(), 3);
    assert_eq!(h.get(1), "b");
    assert_eq!(h.get(2), "c");
}

#[test]
fn usize_rendering() {
    assert_eq!(vshell::history::usize_to_string(0), "0");
    assert_eq!(vshell::history::usize_to_string(7), "7");
    assert_eq!(vshell::history::usize_to_string(120), "120");
    assert_eq!(vshell::history::usize_to_string(98765), "98765");
}
