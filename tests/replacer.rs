use mrf::elem::Elem;
use mrf::formatter::Formatter;
use mrf::matcher::{Error, Matcher};
use mrf::replacer::{matchers_from_elems, spec_input_type, ReplaceIndices, ReplaceSource, Replacer};
use mrf::formatter::InputType;
use mrf::spec::Spec;

fn indexed(matcher: Matcher, index: usize) -> Elem {
    Elem::Spec(Spec {
        matcher,
        index: Some(index),
        replace: None,
        formatter: None,
    })
}

fn any() -> Elem {
    Elem::Spec(Spec::new(Matcher::Any))
}

fn lit(s: &str) -> Elem {
    Elem::Lit(s.to_owned())
}

fn check(s: &str, elems: &[Elem], out: &str, matches: Vec<usize>, replaced: Vec<usize>, sources: Vec<ReplaceSource>) {
    assert_eq!(
        Replacer::new(elems).replace(s).unwrap(),
        (
            out.to_owned(),
            ReplaceIndices {
                matches,
                replaced,
                sources,
            }
        )
    );
}

#[test]
fn replace_simple() {
    check("a", &[lit("b")], "b", vec![], vec![0], vec![ReplaceSource::Literal]);
}

#[test]
fn replace_any() {
    check("a", &[any()], "a", vec![0], vec![0], vec![ReplaceSource::Index(0)]);
}

#[test]
fn replace_any_replace() {
    let elems = [
        Elem::Spec(Spec {
            matcher: Matcher::Any,
            index: None,
            replace: Some("b".to_owned()),
            formatter: None,
        }),
        any(),
    ];
    check("a1", &elems, "b1", vec![0, 1], vec![0, 1], vec![ReplaceSource::Index(0), ReplaceSource::Index(1)]);
}

#[test]
fn replace_number_replace() {
    let elems = [
        any(),
        Elem::Spec(Spec {
            matcher: Matcher::Number,
            index: None,
            replace: Some("2".to_owned()),
            formatter: None,
        }),
    ];
    check("a1a1", &elems, "a1a2", vec![0, 3], vec![0, 3], vec![ReplaceSource::Index(0), ReplaceSource::Index(1)]);
}

#[test]
fn replace_swap() {
    let elems = [indexed(Matcher::Any, 2), indexed(Matcher::Any, 1)];
    check("a1", &elems, "1a", vec![0, 1], vec![0, 1], vec![ReplaceSource::Index(1), ReplaceSource::Index(0)]);
}

#[test]
fn replace_duplicate_entire() {
    let elems = [indexed(Matcher::Any, 1), indexed(Matcher::Any, 1)];
    check("a1", &elems, "a1a1", vec![0], vec![0, 2], vec![ReplaceSource::Index(0), ReplaceSource::Index(0)]);
}

#[test]
fn replace_duplicate_first() {
    let elems = [indexed(Matcher::Any, 1), indexed(Matcher::Any, 1), indexed(Matcher::Any, 2)];
    check(
        "a1",
        &elems,
        "aa1",
        vec![0, 1],
        vec![0, 1, 2],
        vec![ReplaceSource::Index(0), ReplaceSource::Index(0), ReplaceSource::Index(1)],
    );
}

#[test]
fn replace_duplicate_second() {
    let elems = [indexed(Matcher::Any, 1), indexed(Matcher::Any, 2), indexed(Matcher::Any, 2)];
    check(
        "a1",
        &elems,
        "a11",
        vec![0, 1],
        vec![0, 1, 2],
        vec![ReplaceSource::Index(0), ReplaceSource::Index(1), ReplaceSource::Index(1)],
    );
}

#[test]
fn replace_last_number() {
    let elems = [any(), lit("_"), indexed(Matcher::Number, 2)];
    check(
        "a1b2",
        &elems,
        "a1b_2",
        vec![0, 3],
        vec![0, 3, 4],
        vec![ReplaceSource::Index(0), ReplaceSource::Literal, ReplaceSource::Index(1)],
    );
}

#[test]
fn replace_first_number() {
    let elems = [any(), lit("_"), indexed(Matcher::Number, 2), lit("_"), any()];
    check(
        "a1b2",
        &elems,
        "a_1_b2",
        vec![0, 1, 2],
        vec![0, 1, 2, 3, 4],
        vec![
            ReplaceSource::Index(0),
            ReplaceSource::Literal,
            ReplaceSource::Index(1),
            ReplaceSource::Literal,
            ReplaceSource::Index(2),
        ],
    );
}

#[test]
fn replace_after_indexed() {
    let elems = [indexed(Matcher::Any, 1), indexed(Matcher::Any, 1), any()];
    check(
        "a1",
        &elems,
        "aa1",
        vec![0, 1],
        vec![0, 1, 2],
        vec![ReplaceSource::Index(0), ReplaceSource::Index(0), ReplaceSource::Index(1)],
    );
}

#[test]
fn replace_prefix_entire() {
    let elems = [indexed(Matcher::Any, 2), lit("-"), indexed(Matcher::Any, 0)];
    check(
        "a1",
        &elems,
        "1-a1",
        vec![0, 1],
        vec![0, 1, 2],
        vec![ReplaceSource::Index(1), ReplaceSource::Literal, ReplaceSource::Entire],
    );
}

#[test]
fn replace_format() {
    let elems = [
        any(),
        Elem::Spec(Spec {
            matcher: Matcher::Any,
            index: None,
            replace: None,
            formatter: Some(Formatter::with_width(2, '0')),
        }),
    ];
    check("a1", &elems, "a01", vec![0, 1], vec![0, 1], vec![ReplaceSource::Index(0), ReplaceSource::Index(1)]);
}

#[test]
fn replace_format_replace() {
    let elems = [
        any(),
        Elem::Spec(Spec {
            matcher: Matcher::Any,
            index: None,
            replace: Some("2".to_owned()),
            formatter: Some(Formatter::with_width(2, '0')),
        }),
    ];
    check("a1", &elems, "a02", vec![0, 1], vec![0, 1], vec![ReplaceSource::Index(0), ReplaceSource::Index(1)]);
}

#[test]
fn replace_no_match_is_error() {
    let elems = [Elem::Spec(Spec::new(Matcher::Number))];
    assert_eq!(Replacer::new(&elems).replace("abc"), Err(Error::MatchError));
}

#[test]
fn replace_output_offsets_count_bytes() {
    let elems = [any(), lit("_"), any()];
    check(
        "é-1",
        &elems,
        "é_-1",
        vec![0, 1],
        vec![0, 2, 3],
        vec![ReplaceSource::Index(0), ReplaceSource::Literal, ReplaceSource::Index(1)],
    );
}

#[test]
fn matchers_from_elems_empty() {
    assert_eq!(matchers_from_elems(&[]), Vec::<Matcher>::new());
}

#[test]
fn matchers_from_elems_lit() {
    assert_eq!(matchers_from_elems(&[lit("")]), Vec::<Matcher>::new());
}

#[test]
fn matchers_from_elems_any() {
    assert_eq!(matchers_from_elems(&[any()]), vec![Matcher::Any]);
}

#[test]
fn matchers_from_elems_any_lit_any() {
    assert_eq!(matchers_from_elems(&[any(), lit(""), any()]), vec![Matcher::Any, Matcher::Any]);
}

#[test]
fn matchers_from_elems_indexed() {
    assert_eq!(
        matchers_from_elems(&[indexed(Matcher::Any, 1), indexed(Matcher::Any, 1)]),
        vec![Matcher::Any]
    );
}

#[test]
fn matchers_from_elems_fill() {
    assert_eq!(
        matchers_from_elems(&[indexed(Matcher::Any, 3)]),
        vec![Matcher::Any, Matcher::Any, Matcher::Any]
    );
}

#[test]
fn matchers_from_elems_after_indexed() {
    assert_eq!(
        matchers_from_elems(&[indexed(Matcher::Any, 1), any()]),
        vec![Matcher::Any, Matcher::Any]
    );
}

#[test]
fn matchers_from_elems_matcher_preserve() {
    assert_eq!(
        matchers_from_elems(&[Elem::Spec(Spec::new(Matcher::Number)), indexed(Matcher::Any, 1)]),
        vec![Matcher::Number]
    );
}

#[test]
fn matchers_from_elems_matcher_override() {
    assert_eq!(
        matchers_from_elems(&[any(), indexed(Matcher::Number, 1)]),
        vec![Matcher::Number]
    );
}

#[test]
fn matchers_from_elems_entire() {
    assert_eq!(
        matchers_from_elems(&[indexed(Matcher::Any, 0), any()]),
        vec![Matcher::Any]
    );
}

#[test]
fn matchers_from_elems_number_sticks() {
    assert_eq!(
        matchers_from_elems(&[indexed(Matcher::Number, 2), indexed(Matcher::Any, 2)]),
        vec![Matcher::Any, Matcher::Number]
    );
}

#[test]
fn spec_input_type_follows_matcher() {
    assert_eq!(spec_input_type(&Spec::new(Matcher::Number)), InputType::Number);
    assert_eq!(spec_input_type(&Spec::new(Matcher::Any)), InputType::String);
}
