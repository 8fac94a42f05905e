use mrf::elem::Elem;
use mrf::formatter::Formatter;
use mrf::matcher::Matcher;
use mrf::parser::{parse, Error};
use mrf::spec::Spec;

fn spec(matcher: Matcher, index: Option<usize>, replace: Option<&str>, formatter: Option<Formatter>) -> Elem {
    Elem::Spec(Spec {
        matcher,
        index,
        replace: replace.map(|r| r.to_owned()),
        formatter,
    })
}

#[test]
fn parse_empty() {
    let expected: Vec<Elem> = vec![];
    assert_eq!(parse("").unwrap(), expected);
}

#[test]
fn parse_literal() {
    let expected: Vec<Elem> = vec![Elem::Lit("abc".to_owned())];
    assert_eq!(parse("abc").unwrap(), expected);
}

#[test]
fn parse_any() {
    let expected: Vec<Elem> = vec![Elem::Spec(Spec::new(Matcher::Any))];
    assert_eq!(parse("{}").unwrap(), expected);
}

#[test]
fn parse_number() {
    let expected: Vec<Elem> = vec![Elem::Spec(Spec::new(Matcher::Number))];
    assert_eq!(parse("{n}").unwrap(), expected);
}

#[test]
fn parse_ignore_ws() {
    let expected: Vec<Elem> = vec![Elem::Spec(Spec::new(Matcher::Any))];
    assert_eq!(parse("{ }").unwrap(), expected);
}

#[test]
fn parse_ignore_ws_number() {
    let expected: Vec<Elem> = vec![Elem::Spec(Spec::new(Matcher::Number))];
    assert_eq!(parse("{ n }").unwrap(), expected);
}

#[test]
fn parse_prefix_any() {
    let expected: Vec<Elem> = vec![Elem::Lit("abc-".to_owned()), Elem::Spec(Spec::new(Matcher::Any))];
    assert_eq!(parse("abc-{}").unwrap(), expected);
}

#[test]
fn parse_any_number() {
    let expected: Vec<Elem> = vec![Elem::Spec(Spec::new(Matcher::Any)), Elem::Spec(Spec::new(Matcher::Number))];
    assert_eq!(parse("{}{n}").unwrap(), expected);
}

#[test]
fn parse_escaped() {
    let expected: Vec<Elem> = vec![Elem::Lit("{".to_owned()), Elem::Spec(Spec::new(Matcher::Any)), Elem::Lit("}".to_owned())];
    assert_eq!(parse(r#"\{{}\}"#).unwrap(), expected);
}

#[test]
fn parse_index() {
    let expected: Vec<Elem> = vec![spec(Matcher::Any, Some(1), None, None)];
    assert_eq!(parse("{1}").unwrap(), expected);
}

#[test]
fn parse_index_ws() {
    let expected: Vec<Elem> = vec![spec(Matcher::Number, Some(1), None, None)];
    assert_eq!(parse("{n 1}").unwrap(), expected);
}

#[test]
fn parse_replace() {
    let expected: Vec<Elem> = vec![spec(Matcher::Any, None, Some("x"), None)];
    assert_eq!(parse("{=x}").unwrap(), expected);
}

#[test]
fn parse_empty_replace() {
    let expected: Vec<Elem> = vec![spec(Matcher::Any, None, Some(""), None)];
    assert_eq!(parse("{=}").unwrap(), expected);
}

#[test]
fn parse_replace_with_escapes_1() {
    let expected: Vec<Elem> = vec![spec(Matcher::Any, None, Some(":"), None)];
    assert_eq!(parse(r#"{=\:}"#).unwrap(), expected);
}

#[test]
fn parse_replace_with_escapes_2() {
    let expected: Vec<Elem> = vec![spec(Matcher::Any, None, Some("::"), None)];
    assert_eq!(parse(r#"{=\:\:}"#).unwrap(), expected);
}

#[test]
fn parse_replace_with_escapes_3() {
    let expected: Vec<Elem> = vec![spec(Matcher::Any, None, Some(":"), Some(Formatter { fill: ' ', width: 0 }))];
    assert_eq!(parse(r#"{=\::}"#).unwrap(), expected);
}

#[test]
fn parse_format() {
    let expected: Vec<Elem> = vec![spec(Matcher::Any, None, None, Some(Formatter { fill: ' ', width: 4 }))];
    assert_eq!(parse("{:4}").unwrap(), expected);
}

#[test]
fn parse_format_zero() {
    let expected: Vec<Elem> = vec![spec(Matcher::Number, None, None, Some(Formatter { fill: '0', width: 4 }))];
    assert_eq!(parse("{n:04}").unwrap(), expected);
}

#[test]
fn parse_replace_format() {
    let expected: Vec<Elem> = vec![spec(Matcher::Number, None, Some("1"), Some(Formatter { fill: '0', width: 4 }))];
    assert_eq!(parse("{n=1:04}").unwrap(), expected);
}

#[test]
fn parse_index_replace_format() {
    let expected: Vec<Elem> = vec![spec(Matcher::Number, Some(1), Some("1"), Some(Formatter { fill: '0', width: 4 }))];
    assert_eq!(parse("{n1=1:04}").unwrap(), expected);
}

#[test]
fn parse_incomplete() {
    assert!(parse("{").is_err());
}

#[test]
fn parse_error_positions() {
    assert_eq!(parse("ab{"), Err(Error { position: 2 }));
    assert_eq!(parse("{}x{n"), Err(Error { position: 3 }));
    assert_eq!(parse(r"a\x"), Err(Error { position: 0 }));
}

#[test]
fn parse_rejects_bad_parts() {
    assert!(parse(r"abc\").is_err());
    assert!(parse("{=a").is_err());
    assert!(parse(r"{=\n}").is_err());
    assert!(parse("{:4x}").is_err());
    assert!(parse("{:0 }").is_err());
    assert!(parse("{99999999999999999999999}").is_err());
    assert!(parse("{:99999999999999999999999}").is_err());
}

#[test]
fn parse_closing_brace_in_literal() {
    let expected: Vec<Elem> = vec![Elem::Lit("a}b".to_owned())];
    assert_eq!(parse("a}b").unwrap(), expected);
}

#[test]
fn parse_escaped_backslash() {
    let expected: Vec<Elem> = vec![Elem::Lit(r"a\".to_owned()), Elem::Spec(Spec::new(Matcher::Any))];
    assert_eq!(parse(r"a\\{}").unwrap(), expected);
}

#[test]
fn parse_other_matcher_text_is_any() {
    let expected: Vec<Elem> = vec![Elem::Spec(Spec::new(Matcher::Any))];
    assert_eq!(parse("{nn}").unwrap(), expected);
    assert_eq!(parse("{x}").unwrap(), expected);
}

#[test]
fn parse_format_zero_fill_only() {
    let expected: Vec<Elem> = vec![spec(Matcher::Any, None, None, Some(Formatter { fill: '0', width: 0 }))];
    assert_eq!(parse("{:0}").unwrap(), expected);
}

#[test]
fn parse_format_space_fill_wide() {
    let expected: Vec<Elem> = vec![spec(Matcher::Any, None, None, Some(Formatter { fill: ' ', width: 10 }))];
    assert_eq!(parse("{:10}").unwrap(), expected);
}

#[test]
fn parse_replace_keeps_open_brace() {
    let expected: Vec<Elem> = vec![spec(Matcher::Any, Some(2), Some("a{b"), None)];
    assert_eq!(parse(r"{2=a\{b}").unwrap(), expected);
}
