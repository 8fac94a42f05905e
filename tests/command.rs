use mrf::command::{parse, Error};

fn args(s: &str) -> Vec<String> {
    parse(s).unwrap()
}

#[test]
fn all_args_empty() {
    assert_eq!(args(""), Vec::<String>::new());
}

#[test]
fn all_args_simple() {
    assert_eq!(args("echo"), vec!["echo"]);
}

#[test]
fn all_args_multi() {
    assert_eq!(args(r#"echo "Hello, World!""#), vec!["echo", "Hello, World!"]);
}

#[test]
fn all_args_spaces() {
    assert_eq!(args(r#"echo    "Hello, World!""#), vec!["echo", "Hello, World!"]);
}

#[test]
fn all_args_start_spaces() {
    assert_eq!(args(r#" echo "Hello, World!" "#), vec!["echo", "Hello, World!"]);
}

#[test]
fn all_args_end_spaces() {
    assert_eq!(args(r#"echo "Hello, World!" "#), vec!["echo", "Hello, World!"]);
}

#[test]
fn arg_double_quoted() {
    assert_eq!(args(r#""a b""#), vec!["a b"]);
}

#[test]
fn arg_single_quoted() {
    assert_eq!(args("'a b'"), vec!["a b"]);
}

#[test]
fn arg_joined_quoted() {
    assert_eq!(args(r#"a"b c""#), vec!["ab c"]);
}

#[test]
fn arg_take_one() {
    assert_eq!(args("a b"), vec!["a", "b"]);
}

#[test]
fn double_quoted_empty() {
    assert_eq!(args(r#""""#), vec![""]);
}

#[test]
fn double_quoted_escaped() {
    assert_eq!(args(r#""abc \"def\"""#), vec![r#"abc \"def\""#]);
}

#[test]
fn double_quoted_single_quotes() {
    assert_eq!(args(r#""a'b'c""#), vec!["a'b'c"]);
}

#[test]
fn single_quoted_escaped() {
    assert_eq!(args(r#"'abc \'def\''"#), vec![r#"abc \'def\'"#]);
}

#[test]
fn single_quoted_double_quotes() {
    assert_eq!(args(r#"'a"b"c'"#), vec![r#"a"b"c"#]);
}

#[test]
fn command_unterminated_quote() {
    assert_eq!(parse(r#"echo "abc"#), Err(Error));
    assert_eq!(parse(r#"a"b"#), Err(Error));
}

#[test]
fn command_bad_escape_in_quotes() {
    assert!(parse(r#""a\b""#).is_err());
}

#[test]
fn command_tab_inside_argument() {
    assert_eq!(args("a\tb c"), vec!["a\tb", "c"]);
}

#[test]
fn command_error_message() {
    assert_eq!(Error.message(), "failed to parse command");
}
