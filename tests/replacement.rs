use mrf::items::items_from_opt;
use mrf::replacement::{preview_counts, previews, resolve, take_ends};

fn strings(v: &[&str]) -> Vec<String> {
    v.iter().map(|s| s.to_string()).collect()
}

#[test]
fn map_simple() {
    let rows = resolve(&strings(&["test-001"]), "{}{=_}{}").unwrap();
    assert_eq!(rows.len(), 1);
    assert_eq!(rows[0].left, "test-001");
    assert_eq!(rows[0].right, "test_001");
}

#[test]
fn mv_simple() {
    let rows = resolve(&strings(&["test-001"]), "{}{=_}{}").unwrap();
    let pairs: Vec<(String, String)> = rows.into_iter().map(|r| (r.left, r.right)).collect();
    assert_eq!(pairs, vec![("test-001".to_string(), "test_001".to_string())]);
}

#[test]
fn resolve_skips_unmatched_items() {
    let rows = resolve(&strings(&["a1", "abc", "b22"]), "{n:03}").unwrap();
    assert!(rows.is_empty());
    let rows = resolve(&strings(&["a1", "abc", "b22"]), "{}{n:03}").unwrap();
    let pairs: Vec<(&str, &str)> = rows.iter().map(|r| (r.left.as_str(), r.right.as_str())).collect();
    assert_eq!(pairs, vec![("a1", "a001"), ("b22", "b022")]);
}

#[test]
fn resolve_bad_template() {
    assert!(resolve(&strings(&["a"]), "{").is_err());
}

#[test]
fn take_ends_cases() {
    let items = strings(&["a", "b", "c", "d", "e"]);
    assert_eq!(take_ends(&items, 2, 1), strings(&["a", "b", "e"]));
    assert_eq!(take_ends(&items, 0, 0), Vec::<String>::new());
    assert_eq!(take_ends(&items, 9, 0), items);
    assert_eq!(take_ends(&items, 0, 9), items);
}

#[test]
fn preview_counts_cases() {
    assert_eq!(preview_counts(3, 5), (3, 0));
    assert_eq!(preview_counts(5, 5), (5, 0));
    assert_eq!(preview_counts(9, 5), (2, 2));
    assert_eq!(preview_counts(9, 4), (2, 1));
    assert_eq!(preview_counts(9, 0), (0, 0));
}

#[test]
fn previews_rows() {
    let items = strings(&["f1", "f2", "f3", "f4", "f5", "f6", "f7"]);
    let p = previews(&items, "{=g}{}", 5).unwrap();
    let head: Vec<&str> = p.head.iter().map(|r| r.right.as_str()).collect();
    let tail: Vec<&str> = p.tail.iter().map(|r| r.right.as_str()).collect();
    assert_eq!(head, vec!["g1", "g2"]);
    assert_eq!(tail, vec!["g6", "g7"]);
    assert!(p.elided);
    let p = previews(&items[..2], "{=g}{}", 5).unwrap();
    assert_eq!(p.head.len(), 2);
    assert!(p.tail.is_empty());
    assert!(!p.elided);
}

#[test]
fn items_from_opt_cases() {
    assert_eq!(items_from_opt(strings(&["-"])), None);
    assert_eq!(items_from_opt(strings(&["a", "-"])), Some(strings(&["a", "-"])));
    assert_eq!(items_from_opt(strings(&["--"])), Some(strings(&["--"])));
    assert_eq!(items_from_opt(vec![]), Some(vec![]));
}
