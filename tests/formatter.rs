use mrf::formatter::{Formatter, InputType};

fn fmt(width: usize, fill: char, input_type: InputType, s: &str) -> String {
    Formatter::with_width(width, fill).format(input_type, s)
}

#[test]
fn format_empty() {
    assert_eq!(fmt(0, ' ', InputType::String, ""), "");
}

#[test]
fn format_no_pad() {
    assert_eq!(fmt(1, ' ', InputType::String, "a"), "a");
}

#[test]
fn format_simple() {
    assert_eq!(fmt(2, ' ', InputType::String, "a"), " a");
}

#[test]
fn format_number() {
    assert_eq!(fmt(4, '0', InputType::Number, "1"), "0001");
}

#[test]
fn format_number_string() {
    assert_eq!(fmt(4, '0', InputType::String, "1"), "0001");
}

#[test]
fn format_number_truncate_zeros() {
    assert_eq!(fmt(2, '0', InputType::Number, "0001"), "01");
}

#[test]
fn format_number_string_no_truncate_zeros() {
    assert_eq!(fmt(2, '0', InputType::String, "0001"), "0001");
}

#[test]
fn format_number_no_truncate_non_zeros() {
    assert_eq!(fmt(2, '0', InputType::Number, "1234"), "1234");
}

#[test]
fn format_number_keeps_width_four() {
    assert_eq!(fmt(4, '0', InputType::Number, "0001"), "0001");
}

#[test]
fn format_number_all_zeros_keeps_one() {
    assert_eq!(fmt(0, '0', InputType::Number, "0000"), "0");
    assert_eq!(fmt(3, '0', InputType::Number, "0000"), "000");
    assert_eq!(fmt(0, ' ', InputType::Number, ""), "");
}

#[test]
fn format_counts_characters() {
    assert_eq!(fmt(3, '*', InputType::String, "é"), "**é");
}

#[test]
fn format_twice_is_stable() {
    let f = Formatter::with_width(5, '.');
    let once = f.format(InputType::String, "ab");
    assert_eq!(once, "...ab");
    assert_eq!(f.format(InputType::String, &once), once);
}

#[test]
fn formatter_new_and_default() {
    assert_eq!(Formatter::new(), Formatter::with_width(0, ' '));
    assert_eq!(Formatter::default(), Formatter::new());
    assert_eq!(Formatter::new().format(InputType::String, "x"), "x");
}
