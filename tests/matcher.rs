use mrf::matcher::{is_match, match_all, Error, Matcher};
use mrf::tokens::TokenType;

#[test]
fn match_1() {
    assert_eq!(match_all("abc", &[Matcher::Any]).unwrap(), vec![0]);
}

#[test]
fn match_2() {
    assert_eq!(
        match_all("abc123", &[Matcher::Any, Matcher::Any]).unwrap(),
        vec![0, 3]
    );
}

#[test]
fn match_2_to_1() {
    assert_eq!(match_all("abc123", &[Matcher::Any]).unwrap(), vec![0]);
}

#[test]
fn match_4_to_2() {
    assert_eq!(
        match_all("abc def456", &[Matcher::Any, Matcher::Any]).unwrap(),
        vec![0, 3]
    );
}

#[test]
fn match_number() {
    assert_eq!(
        match_all("abc def456", &[Matcher::Any, Matcher::Number]).unwrap(),
        vec![0, 7]
    );
}

#[test]
fn match_skip() {
    assert_eq!(
        match_all("abc123def456", &[Matcher::Any, Matcher::Number]).unwrap(),
        vec![0, 9]
    );
}

#[test]
fn match_no_match() {
    assert!(match_all(
        "abc123def456",
        &[Matcher::Any, Matcher::Number, Matcher::Number]
    )
    .is_err());
}

#[test]
fn match_error_variant() {
    assert_eq!(
        match_all("abc", &[Matcher::Number]),
        Err(Error::MatchError)
    );
}

#[test]
fn match_empty_matchers() {
    assert_eq!(match_all("abc", &[]).unwrap(), Vec::<usize>::new());
    assert_eq!(match_all("", &[]).unwrap(), Vec::<usize>::new());
}

#[test]
fn match_empty_input() {
    assert!(match_all("", &[Matcher::Any]).is_err());
}

#[test]
fn match_is_deterministic() {
    let ms = [Matcher::Any, Matcher::Number, Matcher::Any];
    let a = match_all("img-12.png", &ms);
    let b = match_all("img-12.png", &ms);
    assert_eq!(a, b);
    assert_eq!(a.unwrap(), vec![0, 4, 6]);
}

#[test]
fn match_last_number_takes_last_token() {
    assert_eq!(
        match_all("a1b2", &[Matcher::Number]),
        Err(Error::MatchError)
    );
    assert_eq!(match_all("12", &[Matcher::Number]).unwrap(), vec![0]);
}

#[test]
fn is_match_kinds() {
    assert!(is_match(TokenType::Text, &Matcher::Any));
    assert!(is_match(TokenType::Number, &Matcher::Number));
    assert!(!is_match(TokenType::Punctuation, &Matcher::Number));
}

#[test]
fn match_error_message() {
    assert_eq!(
        Error::MatchError.message(),
        "unable to match specifiers with input"
    );
}
