use vshell::parser::Command;
use vshell::parser::CommandParser;
use vshell::parser::Fd;
use vshell::parser::ParseError;
use vshell::parser::Redirect;
use vshell::parser::RedirectTo;
use vshell::parser::RedirectType;

fn parse(s: &str) -> Result<Vec<Command>, ParseError> {
    CommandParser::new(s).parse()
}

#[test]
fn test() {
    let parser = CommandParser::new("echo hello testing 2>&3 still an arg");
    let pipeline = parser.parse().unwrap();
    assert_eq!(pipeline.len(), 1);
    let c = &pipeline[0];
    assert_eq!(c.name, "echo");
    assert_eq!(c.args, vec!["hello", "testing", "still", "an", "arg"]);
    match &c.redirect {
        Some(Redirect { r_type: RedirectType::Normal, from: Fd::Stderr, to: RedirectTo::Fd(Fd::Other(3)) }) => {},
        other => panic!("unexpected redirect: {:?}", other),
    }
}

#[test]
fn plain_words() {
    let p = parse("echo hello world").unwrap();
    assert_eq!(p.len(), 1);
    assert_eq!(p[0].name, "echo");
    assert_eq!(p[0].args, vec!["hello", "world"]);
    assert!(p[0].redirect.is_none());
}

#[test]
fn empty_input_is_empty_pipeline() {
    assert_eq!(parse("").unwrap().len(), 0);
    assert_eq!(parse("   \t ").unwrap().len(), 0);
}

#[test]
fn single_quotes_preserve_verbatim() {
    let p = parse("echo 'a  b \\ $ \"'").unwrap();
    assert_eq!(p[0].args, vec!["a  b \\ $ \""]);
}

#[test]
fn single_quotes_join_within_token() {
    let p = parse("a'b c'd").unwrap();
    assert_eq!(p[0].name, "ab cd");
}

#[test]
fn double_quotes_process_three_escapes() {
    let p = parse("echo \"a\\\\b\" \"a\\$b\" \"a\\\"b\" \"a\\xb\"").unwrap();
    assert_eq!(p[0].args, vec!["a\\b", "a$b", "a\"b", "a\\xb"]);
}

#[test]
fn unquoted_backslash_escapes_next() {
    let p = parse("echo a\\ b").unwrap();
    assert_eq!(p[0].args, vec!["a b"]);
}

#[test]
fn pipeline_splits_at_unquoted_bar() {
    let p = parse("echo 'a  b' | cat").unwrap();
    assert_eq!(p.len(), 2);
    assert_eq!(p[0].name, "echo");
    assert_eq!(p[0].args, vec!["a  b"]);
    assert_eq!(p[1].name, "cat");
    assert!(p[1].args.is_empty());
}

#[test]
fn quoted_bar_stays_in_token() {
    let p = parse("echo 'a|b'").unwrap();
    assert_eq!(p.len(), 1);
    assert_eq!(p[0].args, vec!["a|b"]);
}

#[test]
fn redirect_truncate() {
    let p = parse("echo hi > out.txt").unwrap();
    let r = p[0].redirect.as_ref().unwrap();
    assert_eq!(r.r_type, RedirectType::Normal);
    assert_eq!(r.from, Fd::Stdout);
    assert_eq!(r.to, RedirectTo::File("out.txt".to_string()));
    assert_eq!(p[0].args, vec!["hi"]);
}

#[test]
fn redirect_append() {
    let p = parse("echo one >> log.txt").unwrap();
    let r = p[0].redirect.as_ref().unwrap();
    assert_eq!(r.r_type, RedirectType::Append);
    assert_eq!(r.from, Fd::Stdout);
    assert_eq!(r.to, RedirectTo::File("log.txt".to_string()));
}

#[test]
fn redirect_stderr_to_descriptor() {
    let p = parse("x 2>&1").unwrap();
    let r = p[0].redirect.as_ref().unwrap();
    assert_eq!(r.from, Fd::Stderr);
    assert_eq!(r.to, RedirectTo::Fd(Fd::Stdout));
}

#[test]
fn digits_without_redirect_are_an_argument() {
    let p = parse("echo 123").unwrap();
    assert_eq!(p[0].args, vec!["123"]);
}

#[test]
fn last_redirect_wins() {
    let p = parse("echo > a > b").unwrap();
    let r = p[0].redirect.as_ref().unwrap();
    assert_eq!(r.to, RedirectTo::File("b".to_string()));
}

#[test]
fn error_unclosed_single_quote() {
    assert_eq!(parse("echo 'abc").unwrap_err(), ParseError::UnclosedSingleQuote);
}

#[test]
fn error_unclosed_double_quote() {
    assert_eq!(parse("echo \"abc").unwrap_err(), ParseError::UnclosedDoubleQuote);
}

#[test]
fn error_dangling_escape() {
    assert_eq!(parse("echo a\\").unwrap_err(), ParseError::DanglingEscape);
}

#[test]
fn error_redirect_in_token() {
    assert_eq!(parse("ab>c").unwrap_err(), ParseError::RedirectInToken);
}

#[test]
fn error_missing_redirect_target() {
    assert_eq!(parse("echo >").unwrap_err(), ParseError::ExpectedString);
}

#[test]
fn error_bad_descriptor_target() {
    assert_eq!(parse("x 2>&zz").unwrap_err(), ParseError::BadDescriptor);
}

#[test]
fn error_huge_descriptor() {
    assert_eq!(parse("echo 99999999999>x").unwrap_err(), ParseError::BadDescriptor);
}

#[test]
fn error_trailing_pipe() {
    assert_eq!(parse("a | ").unwrap_err(), ParseError::MissingCommand);
}

#[test]
fn fd_from_str_values() {
    assert_eq!(Fd::from_str("").unwrap(), Fd::Stdout);
    assert_eq!(Fd::from_str("1").unwrap(), Fd::Stdout);
    assert_eq!(Fd::from_str("2").unwrap(), Fd::Stderr);
    assert_eq!(Fd::from_str("7").unwrap(), Fd::Other(7));
    assert_eq!(Fd::from_str("-3").unwrap(), Fd::Other(-3));
    assert_eq!(Fd::from_str("+2").unwrap(), Fd::Stderr);
    assert_eq!(Fd::from_str("2147483647").unwrap(), Fd::Other(2147483647));
    assert_eq!(Fd::from_str("-2147483648").unwrap(), Fd::Other(-2147483648));
    assert!(Fd::from_str("2147483648").is_err());
    assert!(Fd::from_str("x").is_err());
    assert!(Fd::from_str("-").is_err());
}

#[test]
fn i32_from_text_values() {
    assert_eq!(vshell::parser::i32_from_text("0"), Some(0));
    assert_eq!(vshell::parser::i32_from_text("0042"), Some(42));
    assert_eq!(vshell::parser::i32_from_text("-0"), Some(0));
    assert_eq!(vshell::parser::i32_from_text(""), None);
    assert_eq!(vshell::parser::i32_from_text("12a"), None);
}
