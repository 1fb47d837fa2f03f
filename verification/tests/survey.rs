//! Surveys of small repositories.

use std::path::PathBuf;

use wt_sync::branch_map::BranchMap;
use wt_sync::ground::{collect_branches, find_heir, Worktree};
use wt_sync::inquiry::{Question, Reply};
use wt_sync::nearness::{break_tie, nearest_relatives, Relative};
use wt_sync::notice::{Notice, Span};
use wt_sync::stack_file::format_stack_file;
use wt_sync::survey::Survey;
use wt_sync::tree::DependencyTree;

/// A repository in which every branch is a line of commits from the first one on.
struct Repo {
    branches: Vec<(&'static str, Vec<&'static str>)>,
    target: Option<&'static str>,
    stack_file: Option<String>,
    /// Pairs of a branch and what it was merged into.
    merged: Vec<(&'static str, &'static str)>,
    stamps: Vec<(&'static str, i64)>,
}

fn worktree(branch: &str) -> Worktree {
    Worktree {
        path: PathBuf::from(format!("/wt/{branch}")),
        branch: Some(branch.to_string()),
        bare: false,
        detached: false,
    }
}

impl Repo {
    fn new(branches: Vec<(&'static str, Vec<&'static str>)>) -> Repo {
        Repo {
            branches,
            target: None,
            stack_file: None,
            merged: vec![],
            stamps: vec![],
        }
    }

    fn commits(&self, branch: &str) -> &Vec<&'static str> {
        &self.branches.iter().find(|(b, _)| *b == branch).unwrap().1
    }

    fn reply(&self, question: Question) -> Option<Reply> {
        match question {
            Question::Target => Some(Reply::Target(self.target.map(String::from))),
            Question::StackFile => Some(Reply::StackFile(self.stack_file.clone())),
            Question::Integrated { branch, target } => Some(Reply::Integrated(
                self.merged
                    .iter()
                    .any(|(b, t)| *b == branch && *t == target),
            )),
            Question::MergeBase { candidate, branch } => {
                let ours = self.commits(&branch);
                let base = self
                    .commits(&candidate)
                    .iter()
                    .zip(ours)
                    .take_while(|(a, b)| a == b)
                    .last();
                Some(Reply::MergeBase(base.map(|(a, _)| a.to_string())))
            }
            Question::CommitCount { base, head } => {
                let commits = self.commits(&head);
                let at = commits.iter().position(|c| *c == base).unwrap();
                Some(Reply::CommitCount(commits.len() - at - 1))
            }
            Question::Timestamps { commits } => {
                let mut stamps = BranchMap::new();
                for commit in commits {
                    if let Some((_, stamp)) = self.stamps.iter().find(|(c, _)| *c == commit) {
                        stamps.insert(commit, *stamp);
                    }
                }
                Some(Reply::Timestamps(stamps))
            }
            Question::Finished => None,
        }
    }

    fn survey(&self) -> (DependencyTree, BranchMap<PathBuf>, Vec<Notice>, usize) {
        let worktrees: Vec<Worktree> = self.branches.iter().map(|(b, _)| worktree(b)).collect();
        let mut survey = Survey::new("main".to_string(), &worktrees).unwrap();
        let mut warnings = vec![];
        let mut asked = 0;
        while let Some(reply) = self.reply(survey.question()) {
            asked += 1;
            if let Some(warning) = survey.answer(reply) {
                warnings.push(warning);
            }
        }
        let (tree, integrated) = survey.finish();
        (tree, integrated, warnings, asked)
    }
}

fn parent(tree: &DependencyTree, branch: &str) -> Option<String> {
    tree.nodes.get(branch).unwrap().parent.clone()
}

fn original(tree: &DependencyTree, branch: &str) -> Option<String> {
    tree.nodes.get(branch).unwrap().original_parent.clone()
}

fn text(notice: &Notice) -> String {
    notice
        .spans
        .iter()
        .map(|span| match span {
            Span::Plain(text) => text.clone(),
            Span::Bold(text) => format!("*{text}*"),
            Span::Path(path) => path.display().to_string(),
        })
        .collect()
}

#[test]
fn stack_is_inferred_from_history() {
    let repo = Repo::new(vec![
        ("pr2", vec!["m1", "a1", "b1"]),
        ("main", vec!["m1", "m2"]),
        ("pr1", vec!["m1", "a1"]),
        ("other", vec!["m1", "m2", "c1"]),
    ]);
    let (tree, integrated, warnings, _) = repo.survey();
    assert!(integrated.is_empty());
    assert!(warnings.is_empty());
    assert_eq!(tree.root, "main");
    assert_eq!(parent(&tree, "main"), None);
    assert_eq!(parent(&tree, "pr1"), Some("main".to_string()));
    assert_eq!(parent(&tree, "pr2"), Some("pr1".to_string()));
    assert_eq!(parent(&tree, "other"), Some("main".to_string()));
    assert_eq!(tree.topological_order(), vec!["other", "pr1", "pr2"]);
    assert_eq!(tree.nodes.get("pr2").unwrap().path, PathBuf::from("/wt/pr2"));
}

#[test]
fn ancestors_win_over_diverged_branches() {
    // main moved on, pr1 did not: pr1 is an ancestor of pr2 and farther away than x, which parts
    // from pr2 later but went its own way.
    let repo = Repo::new(vec![
        ("main", vec!["m1", "m2"]),
        ("pr1", vec!["m1", "a1"]),
        ("pr2", vec!["m1", "a1", "b1", "b2"]),
        ("x", vec!["m1", "a1", "b1", "x1"]),
    ]);
    let (tree, _, _, _) = repo.survey();
    assert_eq!(parent(&tree, "pr2"), Some("pr1".to_string()));
    assert_eq!(parent(&tree, "x"), Some("pr1".to_string()));
}

#[test]
fn among_diverged_branches_the_nearer_wins() {
    let repo = Repo::new(vec![
        ("main", vec!["m1", "m2"]),
        ("b", vec!["m1", "a1", "b1"]),
        ("near", vec!["m1", "a1", "n1"]),
        ("far", vec!["m1", "a1", "f1", "f2"]),
    ]);
    let (tree, _, _, _) = repo.survey();
    assert_eq!(parent(&tree, "b"), Some("near".to_string()));
}

#[test]
fn branch_without_relatives_hangs_below_the_root() {
    let repo = Repo::new(vec![
        ("main", vec!["m1"]),
        ("orphan", vec!["o1", "o2"]),
        ("same", vec!["m1"]),
    ]);
    let (tree, _, _, _) = repo.survey();
    assert_eq!(parent(&tree, "orphan"), Some("main".to_string()));
    // No commits of its own since any merge base.
    assert_eq!(parent(&tree, "same"), Some("main".to_string()));
    assert_eq!(original(&tree, "same"), None);
}

#[test]
fn tie_goes_to_the_youngest_merge_base() {
    let mut repo = Repo::new(vec![
        ("main", vec!["m1"]),
        ("b", vec!["m1", "b1"]),
        ("twin", vec!["m1"]),
    ]);
    let (tree, _, warnings, _) = repo.survey();
    assert_eq!(parent(&tree, "b"), Some("main".to_string()));
    assert_eq!(warnings.len(), 1);
    assert_eq!(
        text(&warnings[0]),
        "Branch *b* has equidistant parents: main, twin. Picked *main*."
    );
    // Both share one merge base, so its age decides nothing.
    repo.stamps = vec![("m1", 7)];
    let (tree, _, _, _) = repo.survey();
    assert_eq!(parent(&tree, "b"), Some("main".to_string()));
}

fn relative(name: &str, base: &str, branch_depth: usize, candidate_depth: usize) -> Relative {
    Relative {
        name: name.to_string(),
        merge_base: base.to_string(),
        branch_depth,
        candidate_depth,
    }
}

#[test]
fn nearest_relatives_and_tie_breaks() {
    let ties = nearest_relatives(&vec![
        relative("a", "c1", 2, 0),
        relative("b", "c2", 1, 1),
        relative("c", "c3", 2, 0),
        relative("d", "c4", 3, 0),
        relative("e", "c5", 2, 0),
    ]);
    let names: Vec<&str> = ties.iter().map(|r| r.name.as_str()).collect();
    assert_eq!(names, vec!["a", "c", "e"]);
    let mut stamps = BranchMap::new();
    assert_eq!(break_tie(&ties, &stamps), 0);
    stamps.insert("c3".to_string(), 5);
    assert_eq!(break_tie(&ties, &stamps), 1);
    stamps.insert("c5".to_string(), 5);
    assert_eq!(break_tie(&ties, &stamps), 1);
    stamps.insert("c5".to_string(), 6);
    assert_eq!(break_tie(&ties, &stamps), 2);
    stamps.insert("c1".to_string(), -3);
    assert_eq!(break_tie(&ties, &stamps), 2);
    // The oldest time there is counts as unknown.
    let mut oldest = BranchMap::new();
    oldest.insert("c5".to_string(), i64::MIN);
    assert_eq!(break_tie(&ties, &oldest), 0);
    assert!(nearest_relatives(&vec![]).is_empty());
    let diverged = nearest_relatives(&vec![
        relative("x", "c1", 1, 3),
        relative("y", "c2", 1, 2),
        relative("z", "c3", 2, 1),
    ]);
    assert_eq!(diverged.len(), 1);
    assert_eq!(diverged[0].name, "y");
}

#[test]
fn stack_file_replaces_inference() {
    let mut repo = Repo::new(vec![
        ("main", vec!["m1"]),
        ("a", vec!["m1", "a1"]),
        ("b", vec!["m1", "b1"]),
        ("new", vec!["m1", "a1", "n1"]),
    ]);
    repo.stack_file = Some("b\n\ta\n".to_string());
    let (tree, _, _, asked) = repo.survey();
    assert_eq!(parent(&tree, "a"), Some("b".to_string()));
    assert_eq!(parent(&tree, "b"), Some("main".to_string()));
    // Not in the file: below the default branch.
    assert_eq!(parent(&tree, "new"), Some("main".to_string()));
    // Target, stack file, each of three branches against the target, and a against b.
    assert_eq!(asked, 6);
}

#[test]
fn written_stack_file_keeps_the_parents() {
    let mut repo = Repo::new(vec![
        ("main", vec!["m1", "m2"]),
        ("pr1", vec!["m1", "a1"]),
        ("pr2", vec!["m1", "a1", "b1"]),
        ("other", vec!["m1", "m2", "c1"]),
    ]);
    let (before, _, _, _) = repo.survey();
    repo.stack_file = Some(format_stack_file(&before));
    // pr1 gets another commit: history alone would put pr2 elsewhere.
    repo.branches[1].1.push("a2");
    repo.branches[1].1.push("a3");
    let (after, _, _, _) = repo.survey();
    for name in ["pr1", "pr2", "other"] {
        assert_eq!(parent(&after, name), parent(&before, name));
    }
    repo.stack_file = None;
    let (inferred, _, _, _) = repo.survey();
    assert_ne!(parent(&inferred, "pr1"), parent(&before, "pr1"));
}

#[test]
fn second_survey_finds_the_same_tree() {
    let mut repo = Repo::new(vec![
        ("main", vec!["m1", "m2"]),
        ("pr1", vec!["m1", "a1"]),
        ("pr2", vec!["m1", "a1", "b1"]),
        ("pr3", vec!["m1", "a1", "b1", "c1"]),
        ("other", vec!["m1", "m2", "d1"]),
    ]);
    repo.merged = vec![("pr2", "main")];
    let (before, integrated, _, _) = repo.survey();
    assert_eq!(original(&before, "pr3"), Some("pr2".to_string()));
    repo.stack_file = Some(format_stack_file(&before));
    let (after, again, _, _) = repo.survey();
    assert_eq!(again.len(), integrated.len());
    assert_eq!(after.root, before.root);
    assert_eq!(after.nodes.len(), before.nodes.len());
    for name in ["main", "pr1", "pr3", "other"] {
        let (left, right) = (before.nodes.get(name).unwrap(), after.nodes.get(name).unwrap());
        assert_eq!(right.branch, left.branch);
        assert_eq!(right.path, left.path);
        assert_eq!(right.parent, left.parent);
        assert_eq!(right.children, left.children);
        assert_eq!(right.original_parent, None);
    }
}

#[test]
fn empty_stack_file_counts_as_none() {
    let mut repo = Repo::new(vec![
        ("main", vec!["m1"]),
        ("a", vec!["m1", "a1"]),
        ("b", vec!["m1", "a1", "b1"]),
    ]);
    repo.stack_file = Some("# nothing yet\n".to_string());
    let (tree, _, _, _) = repo.survey();
    assert_eq!(parent(&tree, "b"), Some("a".to_string()));
}

#[test]
fn children_of_integrated_branches_move_up() {
    let mut repo = Repo::new(vec![
        ("main", vec!["m1"]),
        ("pr1", vec!["m1", "a1"]),
        ("pr2", vec!["m1", "a1", "b1"]),
        ("pr3", vec!["m1", "a1", "b1", "c1"]),
    ]);
    repo.stack_file = Some("pr1\n\tpr2\n\t\tpr3\n".to_string());
    // pr2 was merged into its parent, not into the default branch.
    repo.merged = vec![("pr2", "pr1")];
    let (tree, integrated, _, _) = repo.survey();
    assert_eq!(integrated.len(), 1);
    assert_eq!(integrated.get("pr2"), Some(&PathBuf::from("/wt/pr2")));
    assert!(!tree.nodes.contains_key("pr2"));
    assert_eq!(parent(&tree, "pr3"), Some("pr1".to_string()));
    assert_eq!(original(&tree, "pr3"), Some("pr2".to_string()));
    assert_eq!(tree.nodes.get("pr1").unwrap().children, vec!["pr3"]);
    // Both gone: up to the default branch.
    repo.merged = vec![("pr2", "main"), ("pr1", "main")];
    let (tree, integrated, _, _) = repo.survey();
    assert_eq!(integrated.len(), 2);
    assert_eq!(parent(&tree, "pr3"), Some("main".to_string()));
    assert_eq!(original(&tree, "pr3"), Some("pr2".to_string()));
}

#[test]
fn integrated_parent_without_a_stack_file() {
    let mut repo = Repo::new(vec![
        ("main", vec!["m1"]),
        ("pr1", vec!["m1", "a1"]),
        ("pr2", vec!["m1", "a1", "b1"]),
        ("pr3", vec!["m1", "a1", "b1", "c1"]),
    ]);
    repo.merged = vec![("pr2", "main")];
    let (tree, _, _, _) = repo.survey();
    assert_eq!(parent(&tree, "pr3"), Some("main".to_string()));
    assert_eq!(original(&tree, "pr3"), Some("pr2".to_string()));
    assert_eq!(parent(&tree, "pr1"), Some("main".to_string()));
}

#[test]
fn integration_is_tested_against_the_target() {
    let mut repo = Repo::new(vec![("main", vec!["m1"]), ("a", vec!["m1", "a1"])]);
    repo.target = Some("origin/main");
    repo.merged = vec![("a", "origin/main"), ("main", "origin/main")];
    let (tree, integrated, _, _) = repo.survey();
    assert!(integrated.contains_key("a"));
    // The default branch is never integrated.
    assert!(!integrated.contains_key("main"));
    assert!(tree.nodes.contains_key("main"));
    assert!(tree.topological_order().is_empty());
}

#[test]
fn circle_of_integrated_parents_ends_at_the_root() {
    let mut stated = BranchMap::new();
    stated.insert("a".to_string(), "b".to_string());
    stated.insert("b".to_string(), "c".to_string());
    stated.insert("c".to_string(), "a".to_string());
    let mut integrated = BranchMap::new();
    for name in ["a", "b", "c"] {
        integrated.insert(name.to_string(), PathBuf::new());
    }
    assert_eq!(find_heir("a", &stated, &integrated, "main"), "main");
    stated.insert("c".to_string(), "d".to_string());
    assert_eq!(find_heir("a", &stated, &integrated, "main"), "d");
    assert_eq!(find_heir("d", &stated, &integrated, "main"), "main");
}

#[test]
fn worktrees_without_a_branch_are_passed_over() {
    let mut bare = worktree("bare");
    bare.bare = true;
    let mut detached = worktree("detached");
    detached.detached = true;
    let mut nameless = worktree("nameless");
    nameless.branch = None;
    let worktrees = vec![bare, worktree("a"), detached, nameless, worktree("main")];
    let checkouts = collect_branches(&worktrees, "main").unwrap();
    let names: Vec<&str> = checkouts.iter().map(|c| c.branch.as_str()).collect();
    assert_eq!(names, vec!["a", "main"]);
    assert_eq!(checkouts[0].path, PathBuf::from("/wt/a"));
}

#[test]
fn default_branch_needs_a_worktree() {
    let failure = Survey::new("main".to_string(), &vec![worktree("a")]).unwrap_err();
    assert_eq!(
        failure.message,
        "Default branch 'main' has no worktree. Cannot build dependency tree."
    );
    assert!(failure.causes.is_empty());
    let mut detached = worktree("main");
    detached.detached = true;
    assert!(collect_branches(&vec![detached], "main").is_err());
}

#[test]
fn branch_checked_out_twice() {
    let mut second = worktree("a");
    second.path = PathBuf::from("/wt/a2");
    let worktrees = vec![worktree("main"), worktree("a"), second];
    let mut survey = Survey::new("main".to_string(), &worktrees).unwrap();
    let repo = Repo::new(vec![("main", vec!["m1"]), ("a", vec!["m1", "a1"])]);
    while let Some(reply) = repo.reply(survey.question()) {
        survey.answer(reply);
    }
    let (tree, _) = survey.finish();
    assert_eq!(tree.nodes.get("a").unwrap().path, PathBuf::from("/wt/a2"));
    assert_eq!(tree.nodes.get("main").unwrap().children, vec!["a"]);
}
