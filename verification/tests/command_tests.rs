use vshell::command::HistoryRequest;
use vshell::command::InternalCommandName;
use vshell::command::Message;
use vshell::command::RunResult;
use vshell::command::Stage;
use vshell::command::cd_error;
use vshell::command::cd_target;
use vshell::command::echo_line;
use vshell::command::history_request;
use vshell::command::not_found_message;
use vshell::command::plan_redirect;
use vshell::command::pwd_message;
use vshell::command::run_from_input;
use vshell::command::type_message;
use vshell::command::usize_from_digits;

#[test]
fn echo_joins_arguments() {
    assert_eq!(echo_line(&vec!["hello".to_string(), "world".to_string()]), "hello world\n");
    assert_eq!(echo_line(&vec!["a  b".to_string()]), "a  b\n");
    assert_eq!(echo_line(&vec![]), "\n");
}

#[test]
fn builtin_names_are_case_insensitive() {
    assert_eq!(InternalCommandName::from_str("echo"), Some(InternalCommandName::Echo));
    assert_eq!(InternalCommandName::from_str("ExIt"), Some(InternalCommandName::Exit));
    assert_eq!(InternalCommandName::from_str(""), Some(InternalCommandName::Empty));
    assert_eq!(InternalCommandName::from_str("history"), Some(InternalCommandName::History));
    assert_eq!(InternalCommandName::from_str("cat"), None);
}

#[test]
fn type_reports_builtin() {
    let name = "echo".to_string();
    assert_eq!(
        type_message(Some(&name), None),
        Message::Stdout("echo is a shell builtin\n".to_string())
    );
}

#[test]
fn type_reports_found_path() {
    let name = "cat".to_string();
    assert_eq!(
        type_message(Some(&name), Some("/bin/cat".to_string())),
        Message::Stdout("cat is /bin/cat\n".to_string())
    );
}

#[test]
fn type_reports_not_found() {
    let name = "/nonexistent/xyz".to_string();
    match type_message(Some(&name), None) {
        Message::Stderr(s) => assert!(s.ends_with(": not found\n")),
        other => panic!("unexpected: {:?}", other),
    }
}

#[test]
fn type_without_argument_is_an_error() {
    match type_message(None, None) {
        Message::Stderr(_) => {},
        other => panic!("unexpected: {:?}", other),
    }
}

#[test]
fn pwd_prints_directory_or_complains() {
    assert_eq!(pwd_message(0, Some("/home/u".to_string())), Message::Stdout("/home/u\n".to_string()));
    assert_eq!(
        pwd_message(1, None),
        Message::Stderr("expected 0 arguments; got 1\n".to_string())
    );
}

#[test]
fn cd_expands_tilde_and_defaults_to_home() {
    assert_eq!(cd_target(&vec![], "/home/u").unwrap(), "/home/u");
    assert_eq!(cd_target(&vec!["~/x".to_string()], "/home/u").unwrap(), "/home/u/x");
    assert_eq!(cd_target(&vec!["/tmp".to_string()], "/home/u").unwrap(), "/tmp");
    assert!(cd_target(&vec!["a".to_string(), "b".to_string()], "/home/u").is_err());
}

#[test]
fn cd_failure_message() {
    assert_eq!(
        cd_error("/nope"),
        Message::Stderr("cd: /nope: No such file or directory\n".to_string())
    );
}

#[test]
fn spawn_failure_message() {
    assert_eq!(
        not_found_message("frob"),
        Message::Stderr("frob: command not found\n".to_string())
    );
}

#[test]
fn history_arguments() {
    assert_eq!(history_request(&vec![]), HistoryRequest::ShowAll);
    assert_eq!(history_request(&vec!["5".to_string()]), HistoryRequest::ShowLast(5));
    assert_eq!(
        history_request(&vec!["-r".to_string(), "f".to_string()]),
        HistoryRequest::ReadFrom("f".to_string())
    );
    assert_eq!(
        history_request(&vec!["-w".to_string(), "f".to_string()]),
        HistoryRequest::WriteTo("f".to_string())
    );
    assert_eq!(
        history_request(&vec!["-a".to_string(), "f".to_string()]),
        HistoryRequest::AppendTo("f".to_string())
    );
    assert_eq!(history_request(&vec!["-5".to_string()]), HistoryRequest::Invalid);
    assert_eq!(
        history_request(&vec!["x".to_string(), "y".to_string()]),
        HistoryRequest::Invalid
    );
}

#[test]
fn digit_parsing() {
    assert_eq!(usize_from_digits("0"), Some(0));
    assert_eq!(usize_from_digits("123"), Some(123));
    assert_eq!(usize_from_digits(""), None);
    assert_eq!(usize_from_digits("1x"), None);
    assert_eq!(usize_from_digits("-1"), None);
}

#[test]
fn classify_splits_internal_and_external() {
    let (stages, rr) = run_from_input("echo hi | cat").unwrap();
    assert_eq!(rr, RunResult::Continue);
    assert_eq!(stages.len(), 2);
    match &stages[0] {
        Stage::Internal(c) => {
            assert_eq!(c.name, InternalCommandName::Echo);
            assert_eq!(c.args, vec!["hi"]);
        },
        other => panic!("unexpected: {:?}", other),
    }
    match &stages[1] {
        Stage::External(c) => assert_eq!(c.program, "cat"),
        other => panic!("unexpected: {:?}", other),
    }
}

#[test]
fn exit_anywhere_marks_exit() {
    let (_, rr) = run_from_input("echo a | exit").unwrap();
    assert_eq!(rr, RunResult::Exit);
    let (_, rr2) = run_from_input("echo a").unwrap();
    assert_eq!(rr2, RunResult::Continue);
}

#[test]
fn parse_errors_pass_through() {
    assert!(run_from_input("echo 'oops").is_err());
}

#[test]
fn redirect_planning() {
    let (stages, _) = run_from_input("echo hi > out.txt").unwrap();
    match &stages[0] {
        Stage::Internal(c) => {
            let plan = plan_redirect(c.redirect.as_ref().unwrap()).unwrap();
            assert!(!plan.to_stderr);
            assert_eq!(plan.file, "out.txt");
            assert!(!plan.append);
        },
        other => panic!("unexpected: {:?}", other),
    }
    let (stages2, _) = run_from_input("echo one >> log.txt").unwrap();
    match &stages2[0] {
        Stage::Internal(c) => {
            let plan = plan_redirect(c.redirect.as_ref().unwrap()).unwrap();
            assert!(plan.append);
        },
        other => panic!("unexpected: {:?}", other),
    }
    let (stages3, _) = run_from_input("x 2>&1").unwrap();
    match &stages3[0] {
        Stage::External(c) => {
            assert!(plan_redirect(c.redirect.as_ref().unwrap()).is_err());
        },
        other => panic!("unexpected: {:?}", other),
    }
}
