use rustytree::ordered::{add_under, put, stands_before};
use rustytree::text::{decimal_text, path_components, split_last, split_text, trimmed};

#[test]
fn texts_split_at_every_separator() {
    assert_eq!(split_text("/a//b/", '/'), ["", "a", "", "b", ""]);
    assert_eq!(split_text("", '/'), [""]);
    assert_eq!(path_components("/a//b/"), ["a", "b"]);
    assert!(path_components("///").is_empty());
    assert_eq!(path_components("/./a/../.b/."), ["a", "..", ".b"]);
}

#[test]
fn the_last_separator_parts_a_text() {
    assert_eq!(split_last("/a/b", '/'), (Some("/a".to_string()), "b".to_string()));
    assert_eq!(split_last("/a", '/'), (Some(String::new()), "a".to_string()));
    assert_eq!(split_last("a", '/'), (None, "a".to_string()));
    assert_eq!(split_last("a/", '/'), (Some("a".to_string()), String::new()));
}

#[test]
fn numbers_have_their_decimal_digits() {
    assert_eq!(decimal_text(0), "0");
    assert_eq!(decimal_text(1_048_576), "1048576");
    assert_eq!(decimal_text(u64::MAX), "18446744073709551615");
    assert_eq!(trimmed("//a/b/", '/'), "a/b");
}

#[test]
fn texts_stand_in_the_order_of_their_characters() {
    for (a, b) in [("", "a"), ("a", "b"), ("a", "aa"), ("Z", "a"), ("/a", "/a/b"), ("z", "é")] {
        assert!(stands_before(a, b));
        assert!(!stands_before(b, a));
        assert_eq!(a < b, stands_before(a, b));
    }
    assert!(!stands_before("a", "a"));
}

#[test]
fn entries_stay_in_order() {
    let mut entries: Vec<(String, u8)> = Vec::new();
    assert_eq!(put(&mut entries, "b".to_string(), 1), 0);
    assert_eq!(put(&mut entries, "a".to_string(), 2), 0);
    assert_eq!(put(&mut entries, "b".to_string(), 3), 1);
    assert_eq!(entries, [("a".to_string(), 2), ("b".to_string(), 3)]);
    let mut lists: Vec<(String, Vec<u8>)> = Vec::new();
    add_under(&mut lists, "b".to_string(), 1);
    add_under(&mut lists, "a".to_string(), 2);
    add_under(&mut lists, "b".to_string(), 3);
    assert_eq!(lists, [("a".to_string(), vec![2]), ("b".to_string(), vec![1, 3])]);
}
