//! Reading and writing fork points, and the text functions below them.

use wt_sync::branch_map::BranchMap;
use wt_sync::fork_points::{format_fork_points, parse_fork_points};
use wt_sync::order::{comes_before, insert_in_order};
use wt_sync::text::{is_whitespace, trimmed};

#[test]
fn test_fork_points_round_trip() {
    let mut points = BranchMap::new();
    points.insert("pr1".to_string(), "abc123".to_string());
    points.insert("pr2".to_string(), "def456".to_string());

    let content = format_fork_points(&points);
    let loaded = parse_fork_points(&content);

    assert_eq!(loaded.get("pr1").unwrap(), "abc123");
    assert_eq!(loaded.get("pr2").unwrap(), "def456");
}

#[test]
fn lines_are_sorted() {
    let mut points = BranchMap::new();
    points.insert("pr2".to_string(), "def456".to_string());
    points.insert("pr10".to_string(), "0".to_string());
    points.insert("pr1".to_string(), "abc123".to_string());
    assert_eq!(
        format_fork_points(&points),
        // The sign behind the name comes after digits.
        "pr10=0\npr1=abc123\npr2=def456\n"
    );
}

#[test]
fn no_points_make_an_empty_line() {
    let points: BranchMap<String> = BranchMap::new();
    assert_eq!(format_fork_points(&points), "\n");
    assert!(parse_fork_points("\n").is_empty());
    assert!(parse_fork_points("").is_empty());
}

#[test]
fn reading_is_lenient() {
    let map = parse_fork_points("  a = 12 \nno point here\r\nb=x=y\na=34\n=5");
    assert_eq!(map.get("a").unwrap(), "34");
    assert_eq!(map.get("b").unwrap(), "x=y");
    assert_eq!(map.get("").unwrap(), "5");
    assert_eq!(map.len(), 3);
}

#[test]
fn name_with_an_equals_sign_does_not_come_back() {
    let mut points = BranchMap::new();
    points.insert("a=b".to_string(), "12".to_string());
    let map = parse_fork_points(&format_fork_points(&points));
    assert_eq!(map.get("a").unwrap(), "b=12");
    assert!(!map.contains_key("a=b"));
}

#[test]
fn white_space_is_what_unicode_says() {
    for n in 0..=0x10ffff_u32 {
        if let Some(c) = char::from_u32(n) {
            assert_eq!(is_whitespace(c), c.is_whitespace(), "{n:x}");
        }
    }
}

#[test]
fn trimming() {
    assert_eq!(trimmed("\t a b\u{a0}\n"), "a b");
    assert_eq!(trimmed(" \n\t"), "");
    assert_eq!(trimmed("x"), "x");
}

#[test]
fn order_of_names() {
    let names = ["", "a", "a-", "ab", "b", "Ä", "ä", "\u{10000}", "\u{ffff}", "Z"];
    for left in names {
        for right in names {
            assert_eq!(comes_before(left, right), left < right, "{left} {right}");
        }
    }
    let mut list = Vec::new();
    for name in ["pr2", "pr10", "a", "pr2"] {
        insert_in_order(&mut list, name.to_string());
    }
    assert_eq!(list, vec!["a", "pr10", "pr2", "pr2"]);
}

#[test]
fn map_of_branches() {
    let mut map = BranchMap::new();
    assert!(map.is_empty());
    map.insert("b".to_string(), 1);
    map.insert("a".to_string(), 2);
    map.insert("b".to_string(), 3);
    assert_eq!(map.len(), 2);
    assert_eq!(map.get("b"), Some(&3));
    assert_eq!(map.get("c"), None);
    assert!(map.contains_key("a"));
    assert!(!map.is_empty());
    assert_eq!((map.name_at(0).as_str(), *map.value_at(0)), ("b", 3));
    assert_eq!((map.name_at(1).as_str(), *map.value_at(1)), ("a", 2));
}
