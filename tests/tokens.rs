use mrf::tokens::{token_type, tokenize, TokenType};

#[test]
fn tokenize_text() {
    assert_eq!(tokenize("a"), (vec![0], vec![TokenType::Text]));
}

#[test]
fn tokenize_number() {
    assert_eq!(
        tokenize("a1"),
        (vec![0, 1], vec![TokenType::Text, TokenType::Number])
    );
}

#[test]
fn tokenize_numbers() {
    assert_eq!(
        tokenize("a12"),
        (vec![0, 1], vec![TokenType::Text, TokenType::Number])
    );
}

#[test]
fn tokenize_alternating() {
    assert_eq!(
        tokenize("a12bc"),
        (
            vec![0, 1, 3],
            vec![TokenType::Text, TokenType::Number, TokenType::Text]
        )
    );
}

#[test]
fn tokenize_number_first() {
    assert_eq!(
        tokenize("12bc"),
        (vec![0, 2], vec![TokenType::Number, TokenType::Text])
    );
}

#[test]
fn tokenize_whitespace() {
    assert_eq!(
        tokenize("12b c"),
        (
            vec![0, 2, 3, 4],
            vec![
                TokenType::Number,
                TokenType::Text,
                TokenType::Whitespace,
                TokenType::Text
            ]
        )
    );
}

#[test]
fn tokenize_whitespaces() {
    assert_eq!(
        tokenize("12b \tc"),
        (
            vec![0, 2, 3, 5],
            vec![
                TokenType::Number,
                TokenType::Text,
                TokenType::Whitespace,
                TokenType::Text
            ]
        )
    );
}

#[test]
fn tokenize_punctuation() {
    assert_eq!(
        tokenize("12b.c"),
        (
            vec![0, 2, 3, 4],
            vec![
                TokenType::Number,
                TokenType::Text,
                TokenType::Punctuation,
                TokenType::Text
            ]
        )
    );
}

#[test]
fn tokenize_empty() {
    assert_eq!(tokenize(""), (vec![], vec![]));
}

#[test]
fn tokenize_non_ascii_space_is_text() {
    assert_eq!(
        tokenize("12b\u{3000}c"),
        (vec![0, 2], vec![TokenType::Number, TokenType::Text])
    );
}

#[test]
fn tokenize_offsets_count_characters() {
    assert_eq!(
        tokenize("é1"),
        (vec![0, 1], vec![TokenType::Text, TokenType::Number])
    );
}

#[test]
fn token_type_classes() {
    assert_eq!(token_type('7'), TokenType::Number);
    assert_eq!(token_type('\r'), TokenType::Whitespace);
    assert_eq!(token_type('~'), TokenType::Punctuation);
    assert_eq!(token_type('`'), TokenType::Punctuation);
    assert_eq!(token_type('z'), TokenType::Text);
}

#[test]
fn tokenize_lengths_cover_input() {
    let s = "ab 12-cd!!x";
    let (starts, classes) = tokenize(s);
    let n = s.chars().count();
    let mut total = 0;
    for k in 0..starts.len() {
        let end = if k + 1 < starts.len() { starts[k + 1] } else { n };
        total += end - starts[k];
        if k + 1 < classes.len() {
            assert_ne!(classes[k], classes[k + 1]);
        }
    }
    assert_eq!(total, n);
}
