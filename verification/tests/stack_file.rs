//! Reading and writing the stack file.

use std::path::PathBuf;

use wt_sync::branch_map::BranchMap;
use wt_sync::stack_file::{format_stack_file, format_stack_node, parse_stack_file};
use wt_sync::tree::{DependencyTree, TreeNode};

fn make_tree(branches: &[(&str, Option<&str>, &[&str])]) -> DependencyTree {
    let mut nodes = BranchMap::new();
    for &(name, parent, children) in branches {
        nodes.insert(
            name.to_string(),
            TreeNode {
                branch: name.to_string(),
                path: PathBuf::new(),
                parent: parent.map(|p| p.to_string()),
                original_parent: None,
                children: children.iter().map(|c| c.to_string()).collect(),
            },
        );
    }
    DependencyTree {
        root: branches[0].0.to_string(),
        nodes,
    }
}

#[test]
fn test_parse_stack_file_with_root() {
    let content = "main\n\tpr1\n\t\tpr2\n\tother\n";
    let map = parse_stack_file(content, "main").unwrap();
    assert_eq!(map.get("pr1").unwrap(), "main");
    assert_eq!(map.get("pr2").unwrap(), "pr1");
    assert_eq!(map.get("other").unwrap(), "main");
    assert!(!map.contains_key("main"));
}

#[test]
fn test_parse_stack_file_without_root() {
    // What `format_stack_file` writes leaves the root out
    let content = "pr1\n\tpr2\n\t\tpr3\n";
    let map = parse_stack_file(content, "main").unwrap();
    assert_eq!(map.get("pr1").unwrap(), "main");
    assert_eq!(map.get("pr2").unwrap(), "pr1");
    assert_eq!(map.get("pr3").unwrap(), "pr2");
}

#[test]
fn test_parse_stack_file_space_indentation() {
    let content = "main\n    pr1\n        pr2\n";
    let map = parse_stack_file(content, "main").unwrap();
    assert_eq!(map.get("pr1").unwrap(), "main");
    assert_eq!(map.get("pr2").unwrap(), "pr1");
}

#[test]
fn test_parse_stack_file_comments_and_blank_lines() {
    let content = "# This is a comment\nmain\n\n\tpr1\n# Another comment\n\t\tpr2\n\n";
    let map = parse_stack_file(content, "main").unwrap();
    assert_eq!(map.len(), 2);
    assert_eq!(map.get("pr1").unwrap(), "main");
    assert_eq!(map.get("pr2").unwrap(), "pr1");
}

#[test]
fn test_parse_stack_file_annotations_stripped() {
    // git-machete supports "branch  annotation text" after the branch name
    let content = "main\n\tpr1  PR #1 - some feature\n\t\tpr2  PR #2\n";
    let map = parse_stack_file(content, "main").unwrap();
    assert_eq!(map.get("pr1").unwrap(), "main");
    assert_eq!(map.get("pr2").unwrap(), "pr1");
    assert!(!map.contains_key("pr1  PR #1 - some feature"));
}

#[test]
fn test_parse_stack_file_siblings() {
    let content = "main\n\tpr1\n\tpr2\n\tpr3\n";
    let map = parse_stack_file(content, "main").unwrap();
    assert_eq!(map.get("pr1").unwrap(), "main");
    assert_eq!(map.get("pr2").unwrap(), "main");
    assert_eq!(map.get("pr3").unwrap(), "main");
}

#[test]
fn test_parse_stack_file_empty() {
    let map = parse_stack_file("", "main").unwrap();
    assert!(map.is_empty());
}

#[test]
fn test_format_stack_file_omits_root() {
    let tree = make_tree(&[("main", None, &["pr1"]), ("pr1", Some("main"), &[])]);
    let output = format_stack_file(&tree);
    assert!(!output.contains("main"));
    assert!(output.contains("pr1"));
}

#[test]
fn test_round_trip_linear_stack() {
    let tree = make_tree(&[
        ("main", None, &["pr1"]),
        ("pr1", Some("main"), &["pr2"]),
        ("pr2", Some("pr1"), &["pr3"]),
        ("pr3", Some("pr2"), &[]),
    ]);
    let output = format_stack_file(&tree);
    let map = parse_stack_file(&output, "main").unwrap();
    assert_eq!(map.get("pr1").unwrap(), "main");
    assert_eq!(map.get("pr2").unwrap(), "pr1");
    assert_eq!(map.get("pr3").unwrap(), "pr2");
}

#[test]
fn test_round_trip_branching_stack() {
    let tree = make_tree(&[
        ("main", None, &["feature-a", "feature-b"]),
        ("feature-a", Some("main"), &["sub-a"]),
        ("sub-a", Some("feature-a"), &[]),
        ("feature-b", Some("main"), &[]),
    ]);
    let output = format_stack_file(&tree);
    let map = parse_stack_file(&output, "main").unwrap();
    assert_eq!(map.get("feature-a").unwrap(), "main");
    assert_eq!(map.get("sub-a").unwrap(), "feature-a");
    assert_eq!(map.get("feature-b").unwrap(), "main");
}

#[test]
fn written_text_is_exact() {
    let tree = make_tree(&[
        ("main", None, &["a", "b"]),
        ("a", Some("main"), &["a1"]),
        ("a1", Some("a"), &["a11"]),
        ("a11", Some("a1"), &[]),
        ("b", Some("main"), &[]),
    ]);
    assert_eq!(format_stack_file(&tree), "a\n\ta1\n\t\ta11\nb\n");
    let mut output = String::from("> ");
    let mut way = vec!["main", "a"];
    format_stack_node(&tree, "a1", &mut way, &mut output);
    assert_eq!(output, "> \ta1\n\t\ta11\n");
    assert_eq!(way, vec!["main", "a"]);
}

#[test]
fn one_step_deeper_is_one_more_tab() {
    let tree = make_tree(&[
        ("main", None, &["a"]),
        ("a", Some("main"), &["b", "d"]),
        ("b", Some("a"), &["c"]),
        ("c", Some("b"), &[]),
        ("d", Some("a"), &[]),
    ]);
    let text = |way: &[&'static str], branch: &'static str| {
        let mut output = String::from("kept\n");
        let mut above = way.to_vec();
        format_stack_node(&tree, branch, &mut above, &mut output);
        assert!(output.starts_with("kept\n"));
        output["kept\n".len()..].to_string()
    };
    assert_eq!(text(&[], "a"), "b\n\tc\nd\n");
    assert_eq!(text(&["x"], "a"), "a\n\tb\n\t\tc\n\td\n");
    assert_eq!(text(&["x", "y"], "a"), "\ta\n\t\tb\n\t\t\tc\n\t\td\n");
    assert_eq!(text(&["x"], "gone"), "gone\n");
    assert_eq!(text(&[], "gone"), "");
}

#[test]
fn lines_follow_the_topological_order() {
    let tree = make_tree(&[
        ("main", None, &["a", "b"]),
        ("a", Some("main"), &["a1", "a2"]),
        ("a1", Some("a"), &["a11"]),
        ("a11", Some("a1"), &[]),
        ("a2", Some("a"), &[]),
        ("b", Some("main"), &[]),
    ]);
    let content = format_stack_file(&tree);
    let names: Vec<&str> = content.lines().map(|line| line.trim_start_matches('\t')).collect();
    assert_eq!(names, tree.topological_order());
    assert_eq!(content, "a\n\ta1\n\t\ta11\n\ta2\nb\n");
}

#[test]
fn file_of_an_empty_tree_is_empty() {
    let tree = make_tree(&[("main", None, &[])]);
    assert_eq!(format_stack_file(&tree), "");
}

#[test]
fn root_line_makes_no_difference() {
    let with = parse_stack_file("main\n\ta\n\t\tb\n\tc\n", "main").unwrap();
    let without = parse_stack_file("a\n\tb\nc\n", "main").unwrap();
    for name in ["a", "b", "c", "main"] {
        assert_eq!(with.get(name), without.get(name));
    }
    assert_eq!(with.len(), without.len());
}

#[test]
fn parent_is_the_nearest_line_indented_less() {
    // Back to a level that was never opened: the nearest shallower line counts.
    let map = parse_stack_file("a\n      b\n   c\n    d\ne\n", "main").unwrap();
    assert_eq!(map.get("b").unwrap(), "a");
    assert_eq!(map.get("c").unwrap(), "a");
    assert_eq!(map.get("d").unwrap(), "c");
    assert_eq!(map.get("e").unwrap(), "main");
}

#[test]
fn leading_tabs_count_alone() {
    // Behind a leading tab, spaces do not indent; behind leading spaces, tabs do.
    let map = parse_stack_file("a\n\t  b\n\tc\n \td\n", "main").unwrap();
    assert_eq!(map.get("b").unwrap(), "a");
    assert_eq!(map.get("c").unwrap(), "a");
    assert_eq!(map.get("d").unwrap(), "c");
}

#[test]
fn indentation_is_counted_in_bytes() {
    // An ideographic space takes three bytes.
    let map = parse_stack_file("a\n  b\n\u{3000}c\n", "main").unwrap();
    assert_eq!(map.get("c").unwrap(), "b");
}

#[test]
fn later_line_for_a_branch_counts() {
    let map = parse_stack_file("a\n\tx\nb\n\tx\n", "main").unwrap();
    assert_eq!(map.get("x").unwrap(), "b");
    assert_eq!(map.len(), 3);
}

#[test]
fn carriage_returns_are_not_part_of_names() {
    let map = parse_stack_file("a\r\n\tb\r\n", "main").unwrap();
    assert_eq!(map.get("b").unwrap(), "a");
    assert_eq!(map.len(), 2);
}

#[test]
fn indented_comments_are_comments() {
    let map = parse_stack_file("a\n\t# note\n\tb\n   \n", "main").unwrap();
    assert_eq!(map.len(), 2);
    assert_eq!(map.get("b").unwrap(), "a");
}

#[test]
fn default_branch_below_another_has_no_parent() {
    let map = parse_stack_file("a\n\tmain\n\t\tb\n", "main").unwrap();
    assert!(!map.contains_key("main"));
    assert_eq!(map.get("b").unwrap(), "main");
}
