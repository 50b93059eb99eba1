use vshell::autocompleter::Autocompleter;
use vshell::command_trie::CommandsTrie;

#[test]
fn commands_trie_unique_prefix_completes() {
    let mut t = CommandsTrie::new();
    t.insert("echo");
    match t.autocomplete("ec") {
        vshell::command_trie::CompletionResponse::Single(rest, leaf) => {
            assert_eq!(rest, "ho");
            assert!(leaf);
        },
        other => panic!("unexpected: {:?}", other),
    }
}

#[test]
fn commands_trie_branching_lists_sorted() {
    let mut t = CommandsTrie::new();
    t.insert("exit");
    t.insert("echo");
    match t.autocomplete("e") {
        vshell::command_trie::CompletionResponse::Multiple(items) => {
            assert_eq!(items, vec!["echo".to_string(), "exit".to_string()]);
        },
        other => panic!("unexpected: {:?}", other),
    }
}

#[test]
fn commands_trie_empty_index_has_no_match() {
    let t = CommandsTrie::new();
    assert_eq!(t.autocomplete(""), vshell::command_trie::CompletionResponse::NoMatch);
}

#[test]
fn commands_trie_unknown_prefix_has_no_match() {
    let mut t = CommandsTrie::new();
    t.insert("echo");
    assert_eq!(t.autocomplete("x"), vshell::command_trie::CompletionResponse::NoMatch);
}

#[test]
fn commands_trie_inner_name_is_not_a_leaf() {
    let mut t = CommandsTrie::new();
    t.insert("ec");
    t.insert("echo");
    match t.autocomplete("e") {
        vshell::command_trie::CompletionResponse::Single(rest, leaf) => {
            assert_eq!(rest, "c");
            assert!(!leaf);
        },
        other => panic!("unexpected: {:?}", other),
    }
}

#[test]
fn autocompleter_unique_prefix_yields_suffix() {
    let mut t = Autocompleter::new();
    t.insert_val("ls", " ");
    match t.autocomplete("l") {
        vshell::autocompleter::CompletionResponse::Single(rest, suffix) => {
            assert_eq!(rest, "s");
            assert_eq!(suffix, Some(" ".to_string()));
        },
        other => panic!("unexpected: {:?}", other),
    }
}

#[test]
fn autocompleter_branch_appends_annotations() {
    let mut t = Autocompleter::new();
    t.insert_val("echo", " ");
    t.insert_val("exit", " ");
    match t.autocomplete("e") {
        vshell::autocompleter::CompletionResponse::Multiple(items) => {
            assert_eq!(items, vec!["echo ".to_string(), "exit ".to_string()]);
        },
        other => panic!("unexpected: {:?}", other),
    }
}

#[test]
fn autocompleter_branch_below_completed_name() {
    let mut t = Autocompleter::new();
    t.insert("git");
    t.insert("gitk");
    match t.autocomplete("g") {
        vshell::autocompleter::CompletionResponse::Single(rest, suffix) => {
            assert_eq!(rest, "it");
            assert_eq!(suffix, Some(String::new()));
        },
        other => panic!("unexpected: {:?}", other),
    }
}

#[test]
fn autocompleter_empty_index_has_no_match() {
    let t = Autocompleter::new();
    assert_eq!(t.autocomplete(""), vshell::autocompleter::CompletionResponse::NoMatch);
}
