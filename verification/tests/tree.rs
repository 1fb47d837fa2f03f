//! The orders in which the tree is walked.

use std::path::PathBuf;

use wt_sync::branch_map::BranchMap;
use wt_sync::plan::{command_line, draw_tree, operation_line, sync_plan};
use wt_sync::tree::{DependencyTree, TreeNode};

fn make_tree(branches: &[(&str, Option<&str>, &[&str])]) -> DependencyTree {
    let mut nodes = BranchMap::new();
    for &(name, parent, children) in branches {
        nodes.insert(
            name.to_string(),
            TreeNode {
                branch: name.to_string(),
                path: PathBuf::new(),
                parent: parent.map(|p| p.to_string()),
                original_parent: None,
                children: children.iter().map(|c| c.to_string()).collect(),
            },
        );
    }
    DependencyTree {
        root: branches[0].0.to_string(),
        nodes,
    }
}

#[test]
fn test_topological_order_linear() {
    let mut nodes = BranchMap::new();
    nodes.insert(
        "main".to_string(),
        TreeNode {
            branch: "main".to_string(),
            path: PathBuf::new(),
            parent: None,
            original_parent: None,
            children: vec!["pr1".to_string()],
        },
    );
    nodes.insert(
        "pr1".to_string(),
        TreeNode {
            branch: "pr1".to_string(),
            path: PathBuf::new(),
            parent: Some("main".to_string()),
            original_parent: None,
            children: vec!["pr2".to_string()],
        },
    );
    nodes.insert(
        "pr2".to_string(),
        TreeNode {
            branch: "pr2".to_string(),
            path: PathBuf::new(),
            parent: Some("pr1".to_string()),
            original_parent: None,
            children: vec!["pr3".to_string()],
        },
    );
    nodes.insert(
        "pr3".to_string(),
        TreeNode {
            branch: "pr3".to_string(),
            path: PathBuf::new(),
            parent: Some("pr2".to_string()),
            original_parent: None,
            children: vec![],
        },
    );

    let tree = DependencyTree {
        root: "main".to_string(),
        nodes,
    };

    assert_eq!(tree.topological_order(), vec!["pr1", "pr2", "pr3"]);
}

#[test]
fn test_topological_order_fan_out() {
    let mut nodes = BranchMap::new();
    nodes.insert(
        "main".to_string(),
        TreeNode {
            branch: "main".to_string(),
            path: PathBuf::new(),
            parent: None,
            original_parent: None,
            children: vec!["feature-a".to_string(), "feature-b".to_string()],
        },
    );
    nodes.insert(
        "feature-a".to_string(),
        TreeNode {
            branch: "feature-a".to_string(),
            path: PathBuf::new(),
            parent: Some("main".to_string()),
            original_parent: None,
            children: vec![],
        },
    );
    nodes.insert(
        "feature-b".to_string(),
        TreeNode {
            branch: "feature-b".to_string(),
            path: PathBuf::new(),
            parent: Some("main".to_string()),
            original_parent: None,
            children: vec![],
        },
    );

    let tree = DependencyTree {
        root: "main".to_string(),
        nodes,
    };

    let order = tree.topological_order();
    assert_eq!(order.len(), 2);
    // Both should appear, order is children sorted alphabetically
    assert!(order.contains(&"feature-a"));
    assert!(order.contains(&"feature-b"));
}

#[test]
fn test_stack_containing_middle_branch() {
    let mut nodes = BranchMap::new();
    nodes.insert(
        "main".to_string(),
        TreeNode {
            branch: "main".to_string(),
            path: PathBuf::new(),
            parent: None,
            original_parent: None,
            children: vec!["pr1".to_string(), "feature-x".to_string()],
        },
    );
    nodes.insert(
        "pr1".to_string(),
        TreeNode {
            branch: "pr1".to_string(),
            path: PathBuf::new(),
            parent: Some("main".to_string()),
            original_parent: None,
            children: vec!["pr2".to_string()],
        },
    );
    nodes.insert(
        "pr2".to_string(),
        TreeNode {
            branch: "pr2".to_string(),
            path: PathBuf::new(),
            parent: Some("pr1".to_string()),
            original_parent: None,
            children: vec!["pr3".to_string()],
        },
    );
    nodes.insert(
        "pr3".to_string(),
        TreeNode {
            branch: "pr3".to_string(),
            path: PathBuf::new(),
            parent: Some("pr2".to_string()),
            original_parent: None,
            children: vec![],
        },
    );
    nodes.insert(
        "feature-x".to_string(),
        TreeNode {
            branch: "feature-x".to_string(),
            path: PathBuf::new(),
            parent: Some("main".to_string()),
            original_parent: None,
            children: vec![],
        },
    );

    let tree = DependencyTree {
        root: "main".to_string(),
        nodes,
    };

    // When on pr2, should get pr1, pr2, pr3 (the pr1 stack) but not feature-x
    let stack = tree.stack_containing("pr2");
    assert!(stack.contains(&"pr1"));
    assert!(stack.contains(&"pr2"));
    assert!(stack.contains(&"pr3"));
    assert!(!stack.contains(&"feature-x"));
    assert!(!stack.contains(&"main"));
}

#[test]
fn test_stack_containing_unknown_branch() {
    let tree = make_tree(&[("main", None, &["pr1"]), ("pr1", Some("main"), &[])]);
    assert!(tree.stack_containing("nonexistent").is_empty());
}

#[test]
fn test_stack_containing_root_returns_all() {
    let tree = make_tree(&[
        ("main", None, &["pr1", "pr2"]),
        ("pr1", Some("main"), &[]),
        ("pr2", Some("main"), &[]),
    ]);
    let stack = tree.stack_containing("main");
    // Root returns all via topological_order
    assert!(stack.contains(&"pr1"));
    assert!(stack.contains(&"pr2"));
}

#[test]
fn order_follows_each_branch_down() {
    let tree = make_tree(&[
        ("main", None, &["a", "b"]),
        ("a", Some("main"), &["a1", "a2"]),
        ("b", Some("main"), &["b1"]),
        ("a1", Some("a"), &["a11"]),
        ("a2", Some("a"), &[]),
        ("b1", Some("b"), &[]),
        ("a11", Some("a1"), &[]),
    ]);
    assert_eq!(
        tree.topological_order(),
        vec!["a", "a1", "a11", "a2", "b", "b1"]
    );
    assert_eq!(tree.stack_containing("main"), tree.topological_order());
    assert_eq!(tree.sync_order(), tree.topological_order());
}

#[test]
fn stack_goes_generation_by_generation() {
    let tree = make_tree(&[
        ("main", None, &["a", "b"]),
        ("a", Some("main"), &["a1", "a2"]),
        ("b", Some("main"), &["b1"]),
        ("a1", Some("a"), &["x"]),
        ("a2", Some("a"), &["w", "y"]),
        ("b1", Some("b"), &[]),
        ("x", Some("a1"), &["z"]),
        ("z", Some("x"), &[]),
        ("w", Some("a2"), &[]),
        ("y", Some("a2"), &[]),
    ]);
    let stack = vec!["a", "a1", "a2", "x", "w", "y", "z"];
    for name in ["a", "a1", "a2", "x", "y", "z"] {
        assert_eq!(tree.stack_containing(name), stack);
    }
    assert_eq!(tree.stack_containing("b1"), vec!["b", "b1"]);
    assert_eq!(
        tree.topological_order(),
        vec!["a", "a1", "x", "z", "a2", "w", "y", "b", "b1"]
    );
}

#[test]
fn stack_holds_children_without_a_node() {
    let tree = make_tree(&[
        ("main", None, &["a"]),
        ("a", Some("main"), &["gone", "b"]),
        ("b", Some("a"), &["far"]),
    ]);
    assert_eq!(tree.stack_containing("b"), vec!["a", "gone", "b", "far"]);
}

#[test]
fn sync_order_holds_every_branch() {
    let tree = make_tree(&[
        ("main", None, &["z"]),
        ("z", Some("main"), &["y"]),
        ("y", Some("z"), &[]),
        // The parent has no worktree.
        ("c", Some("elsewhere"), &["a", "b"]),
        ("a", Some("c"), &[]),
        ("b", Some("c"), &[]),
        // Parents in a circle.
        ("p", Some("q"), &["q"]),
        ("q", Some("p"), &["p"]),
    ]);
    assert_eq!(tree.topological_order(), vec!["z", "y"]);
    assert_eq!(
        tree.sync_order(),
        vec!["z", "y", "c", "a", "b", "q", "p"]
    );
    let lone = make_tree(&[("main", None, &[])]);
    assert!(lone.sync_order().is_empty());
}

#[test]
fn children_without_a_node_are_listed() {
    let tree = make_tree(&[("main", None, &["gone", "pr1"]), ("pr1", Some("main"), &[])]);
    assert_eq!(tree.topological_order(), vec!["gone", "pr1"]);
}

#[test]
fn order_without_a_root_node_is_empty() {
    let mut tree = make_tree(&[("main", None, &["pr1"]), ("pr1", Some("main"), &[])]);
    tree.root = "trunk".to_string();
    assert!(tree.topological_order().is_empty());
}

#[test]
fn stack_whose_top_hangs_in_the_air() {
    let tree = make_tree(&[
        ("main", None, &[]),
        ("a", Some("elsewhere"), &["b"]),
        ("b", Some("a"), &[]),
    ]);
    assert_eq!(tree.stack_containing("b"), vec!["a", "b"]);
}

#[test]
fn stack_with_circular_parents() {
    let tree = make_tree(&[
        ("main", None, &[]),
        ("a", Some("b"), &["b"]),
        ("b", Some("a"), &["a"]),
    ]);
    assert_eq!(tree.stack_containing("a"), vec!["b", "a"]);
    assert_eq!(tree.stack_containing("b"), vec!["a", "b"]);
}

#[test]
fn drawing_of_a_tree() {
    let tree = make_tree(&[
        ("main", None, &["feature-a", "feature-c"]),
        ("feature-a", Some("main"), &["feature-b"]),
        ("feature-b", Some("feature-a"), &["feature-d", "feature-e"]),
        ("feature-d", Some("feature-b"), &[]),
        ("feature-e", Some("feature-b"), &[]),
        ("feature-c", Some("main"), &["feature-f"]),
        ("feature-f", Some("feature-c"), &[]),
    ]);
    assert_eq!(
        draw_tree(&tree),
        vec![
            "main",
            "├── feature-a",
            "│   └── feature-b",
            "│       ├── feature-d",
            "│       └── feature-e",
            "└── feature-c",
            "    └── feature-f",
        ]
    );
}

#[test]
fn plan_with_and_without_commands() {
    let mut tree = make_tree(&[
        ("main", None, &["feature-a", "feature-c"]),
        ("feature-a", Some("main"), &["feature-b"]),
        ("feature-b", Some("feature-a"), &[]),
        ("feature-c", Some("main"), &[]),
    ]);
    tree.nodes.insert(
        "feature-c".to_string(),
        TreeNode {
            branch: "feature-c".to_string(),
            path: PathBuf::new(),
            parent: Some("main".to_string()),
            original_parent: Some("done".to_string()),
            children: vec![],
        },
    );
    let queue: Vec<String> = tree.sync_order().iter().map(|b| b.to_string()).collect();
    assert_eq!(queue, vec!["feature-a", "feature-b", "feature-c"]);
    let mut bases = BranchMap::new();
    assert_eq!(
        sync_plan(&tree, &queue, &bases),
        vec![
            "Dependency tree:",
            "main",
            "├── feature-a",
            "│   └── feature-b",
            "└── feature-c",
            "",
            "Planned operations:",
            "  rebase feature-a onto main",
            "  rebase feature-b onto feature-a",
            "  rebase --onto main done feature-c  (reparented from integrated done)",
        ]
    );
    bases.insert("feature-a".to_string(), "abc1234".to_string());
    bases.insert("feature-b".to_string(), "def5678".to_string());
    let lines = sync_plan(&tree, &queue, &bases);
    assert_eq!(
        lines[7..].to_vec(),
        vec![
            "  rebase feature-a onto main",
            "    $ git rebase --onto main abc1234 feature-a",
            "  rebase feature-b onto feature-a",
            "    $ git rebase --onto feature-a def5678 feature-b",
            "  rebase --onto main done feature-c  (reparented from integrated done)",
        ]
    );
}

#[test]
fn plan_without_operations() {
    let tree = make_tree(&[("main", None, &[])]);
    assert_eq!(
        sync_plan(&tree, &vec!["main".to_string(), "gone".to_string()], &BranchMap::new()),
        vec!["Dependency tree:", "main", "", "Planned operations:", "  (none)"]
    );
    assert_eq!(operation_line(&tree, "main"), None);
    assert_eq!(operation_line(&tree, "gone"), None);
    assert_eq!(
        command_line("p", "0123", "b"),
        "    $ git rebase --onto p 0123 b"
    );
}
