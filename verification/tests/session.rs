//! Whole syncs, action by action.

use std::path::PathBuf;

use wt_sync::branch_map::BranchMap;
use wt_sync::command::{git_command, Argument};
use wt_sync::failure::{no_default_branch, Failure};
use wt_sync::notice::{to_decimal, Level, Notice, Span};
use wt_sync::options::{flag_pair, Flags, SyncOptions};
use wt_sync::session::Session;
use wt_sync::state::{Action, Event};
use wt_sync::tree::{DependencyTree, TreeNode};

const NO_OPTIONS: SyncOptions = SyncOptions {
    fetch: false,
    all: false,
    push: false,
    prune: false,
    force: false,
    verbose: false,
    dry_run: false,
};

fn node(branch: &str, parent: Option<&str>, children: &[&str]) -> TreeNode {
    TreeNode {
        branch: branch.to_string(),
        path: PathBuf::from(format!("/wt/{branch}")),
        parent: parent.map(String::from),
        original_parent: None,
        children: children.iter().map(|c| c.to_string()).collect(),
    }
}

fn tree(nodes: Vec<TreeNode>) -> DependencyTree {
    let mut map = BranchMap::new();
    for node in nodes {
        map.insert(node.branch.clone(), node);
    }
    DependencyTree {
        root: "main".to_string(),
        nodes: map,
    }
}

/// main - a - b, and c besides.
fn stack() -> DependencyTree {
    tree(vec![
        node("main", None, &["a", "c"]),
        node("a", Some("main"), &["b"]),
        node("b", Some("a"), &[]),
        node("c", Some("main"), &[]),
    ])
}

fn surveyed(tree: DependencyTree, integrated: &[&str]) -> Event {
    let mut map = BranchMap::new();
    for branch in integrated {
        map.insert(branch.to_string(), PathBuf::from(format!("/wt/{branch}")));
    }
    Event::Surveyed {
        tree,
        integrated: map,
    }
}

fn name(name: &str) -> Event {
    Event::Name(Some(name.to_string()))
}

fn output(text: &str) -> Event {
    Event::Output(text.to_string())
}

fn failed(message: &str) -> Event {
    Event::Failed(Failure {
        message: message.to_string(),
        causes: vec!["because".to_string()],
    })
}

fn contents(text: &str) -> Event {
    Event::Contents(Some(text.to_string()))
}

/// A short form of an action.
fn shown(action: &Action) -> String {
    match action {
        Action::Survey => "survey".to_string(),
        Action::CurrentBranch => "current branch".to_string(),
        Action::RebaseState { path } => format!("rebasing? {}", path.display()),
        Action::MakeDataDir => "mkdir".to_string(),
        Action::WriteStackFile { content } => format!("stack {content:?}"),
        Action::ReadForkPoints => "read points".to_string(),
        Action::WriteForkPoints { content } => format!("points {content:?}"),
        Action::MergeBase { parent, branch } => format!("merge-base {parent} {branch}"),
        Action::Upstream { branch } => format!("upstream? {branch}"),
        Action::PushRemote { branch } => format!("remote? {branch}"),
        Action::Finish => "finish".to_string(),
        Action::Fail { failure } => format!("fail {}", failure.report().join(" / ")),
        _ => {
            let command = git_command(action).unwrap();
            let words: Vec<String> = command
                .arguments
                .iter()
                .map(|argument| match argument {
                    Argument::Text(text) => text.clone(),
                    Argument::Path(path) => path.display().to_string(),
                })
                .collect();
            match command.place {
                Some(place) => format!("{}: git {}", place.display(), words.join(" ")),
                None => format!("git {}", words.join(" ")),
            }
        }
    }
}

fn told(notice: &Notice) -> String {
    let text: String = notice
        .spans
        .iter()
        .map(|span| match span {
            Span::Plain(text) => text.clone(),
            Span::Bold(text) => format!("*{text}*"),
            Span::Path(path) => path.display().to_string(),
        })
        .collect();
    match notice.level {
        Level::Progress => format!("> {text}"),
        Level::Success => format!("+ {text}"),
        Level::Warning => format!("! {text}"),
        Level::Error => format!("x {text}"),
        Level::Hint => format!("? {text}"),
        Level::Line => text,
    }
}

/// Plays `events` and lists the actions, each with what is told after it, and the last action.
fn play(opts: SyncOptions, events: Vec<Event>) -> Vec<String> {
    let (mut session, notices) = Session::new(opts);
    let mut log: Vec<String> = notices.iter().map(told).collect();
    for event in events {
        log.push(shown(&session.action()));
        log.extend(session.step(event).iter().map(told));
    }
    log.push(shown(&session.action()));
    log
}

#[test]
fn sync_of_a_stack() {
    let opts = SyncOptions {
        verbose: true,
        ..NO_OPTIONS
    };
    let log = play(
        opts,
        vec![
            surveyed(stack(), &[]),
            name("b"),
            output("\n"),
            output(""),
            Event::Flag(false),
            Event::Flag(false),
            Event::Done,
            Event::Done,
            contents("b=f00\nold=1\n"),
            name("m0"),
            output("m1\n"),
            Event::Done,
            name("a0"),
            output("a1\n"),
            Event::Done,
            Event::Done,
        ],
    );
    assert_eq!(
        log,
        vec![
            "survey",
            "current branch",
            "/wt/a: git status --porcelain -uno",
            "/wt/b: git status --porcelain -uno",
            "rebasing? /wt/a",
            "rebasing? /wt/b",
            "mkdir",
            "stack \"a\\n\\tb\\nc\\n\"",
            "read points",
            "merge-base main a",
            "git rev-parse main",
            "> Rebasing *a* onto *main*...",
            "    $ git rebase --onto main m0 a",
            "/wt/a: git rebase --onto main m0 a",
            "+ Rebased *a* onto *main*",
            "merge-base a b",
            "git rev-parse a",
            "> Rebasing *b* onto *a*...",
            "    $ git rebase --onto a f00 b",
            "/wt/b: git rebase --onto a f00 b",
            "+ Rebased *b* onto *a*",
            "+ Sync complete: 2 rebased, 0 already up to date.",
            "points \"a=m1\\nb=a1\\nold=1\\n\"",
            "finish",
        ]
    );
}

#[test]
fn everything_up_to_date() {
    let opts = SyncOptions {
        all: true,
        ..NO_OPTIONS
    };
    let log = play(
        opts,
        vec![
            surveyed(
                tree(vec![
                    node("main", None, &["a"]),
                    node("a", Some("main"), &["o"]),
                    node("o", Some("a"), &[]),
                ]),
                &[],
            ),
            Event::Name(None),
            output(""),
            output(""),
            Event::Flag(false),
            Event::Flag(false),
            Event::Done,
            Event::Done,
            Event::Contents(None),
            name("m1"),
            output(" m1\n"),
            Event::Name(None),
            Event::Done,
        ],
    );
    assert_eq!(
        log[9..].to_vec(),
        vec![
            "merge-base main a",
            "git rev-parse main",
            "+ *a* is up to date with *main*",
            // No common history: passed over.
            "merge-base a o",
            "+ All branches are up to date.",
            "points \"a=m1\\n\"",
            "finish",
        ]
    );
}

#[test]
fn conflict_saves_what_was_done_and_fails() {
    let opts = SyncOptions {
        all: true,
        push: true,
        prune: true,
        ..NO_OPTIONS
    };
    let mut nodes = stack();
    nodes.nodes.insert(
        "c".to_string(),
        TreeNode {
            original_parent: Some("done".to_string()),
            ..node("c", Some("main"), &[])
        },
    );
    let events = vec![
        surveyed(nodes, &["done"]),
        Event::Name(None),
        output(""),
        output(""),
        output(""),
        Event::Flag(false),
        Event::Flag(false),
        Event::Flag(false),
        Event::Done,
        Event::Done,
        contents("c=stored\n"),
        name("m1"),
        output("m1"),
        name("a1"),
        output("a1"),
        name("m0"),
        output("m1"),
        failed("could not apply"),
        Event::Flag(true),
        Event::Done,
    ];
    let log = play(opts, events);
    assert_eq!(
        log[13..].to_vec(),
        vec![
            "+ *a* is up to date with *main*",
            "merge-base a b",
            "git rev-parse a",
            "+ *b* is up to date with *a*",
            "merge-base main c",
            "git rev-parse main",
            "> Rebasing *c* onto *main* (was on integrated *done*)...",
            "/wt/c: git rebase --onto main done c",
            "rebasing? /wt/c",
            "x Rebase conflict while rebasing *c* onto *main*",
            "? Resolve conflicts in /wt/c, then run:\n  cd /wt/c\n  git rebase --continue\n  wt sync",
            "points \"a=m1\\nb=a1\\nc=stored\\n\"",
            "fail Error: rebase conflict — resolve and re-run `wt sync`",
        ]
    );
}

fn up_to_rebase() -> Vec<Event> {
    vec![
        surveyed(
            tree(vec![node("main", None, &["a"]), node("a", Some("main"), &[])]),
            &[],
        ),
        name("a"),
        output(""),
        Event::Flag(false),
        Event::Done,
        Event::Done,
        Event::Contents(None),
        name("m0"),
        output("m1"),
    ]
}

fn last(opts: SyncOptions, events: Vec<Event>) -> String {
    play(opts, events).pop().unwrap()
}

#[test]
fn failed_rebase_without_a_conflict() {
    let mut events = up_to_rebase();
    events.push(failed("no such commit"));
    events.push(Event::Flag(false));
    assert_eq!(
        last(NO_OPTIONS, events),
        "fail Error: Failed to rebase a onto main /   caused by: no such commit /   caused by: because"
    );
    let mut events = up_to_rebase();
    events.push(failed("no such commit"));
    events.push(failed("git is gone"));
    assert_eq!(
        last(NO_OPTIONS, events),
        "fail Error: git is gone /   caused by: because"
    );
}

#[test]
fn failures_that_end_a_sync() {
    let fetch = SyncOptions {
        fetch: true,
        ..NO_OPTIONS
    };
    assert_eq!(
        play(fetch, vec![failed("offline")]),
        vec![
            "> Fetching from remote...",
            "git fetch --prune",
            "fail Error: git fetch failed /   caused by: offline /   caused by: because",
        ]
    );
    assert_eq!(
        play(fetch, vec![Event::Done])[1..].to_vec(),
        vec!["git fetch --prune", "+ Fetch complete", "survey"]
    );
    assert_eq!(
        last(NO_OPTIONS, vec![failed("no repository")]),
        "fail Error: no repository /   caused by: because"
    );
    assert_eq!(
        last(NO_OPTIONS, vec![surveyed(stack(), &[]), Event::Name(None)]),
        "fail Error: Current worktree has no branch. Use --all to sync all branches."
    );
    for (steps, message) in [
        (5, "Failed to create .git/wt directory"),
        (6, "Failed to write stack file"),
    ] {
        let mut events = up_to_rebase();
        events.truncate(steps - 1);
        events.push(failed("full"));
        assert_eq!(
            last(NO_OPTIONS, events),
            format!("fail Error: {message} /   caused by: full /   caused by: because")
        );
    }
    for conflict in [false, true] {
        let mut events = up_to_rebase();
        if conflict {
            events.push(failed("stop"));
            events.push(Event::Flag(true));
        } else {
            events.push(Event::Done);
        }
        events.push(failed("full"));
        assert_eq!(
            last(NO_OPTIONS, events),
            "fail Error: Failed to write fork-points file /   caused by: full /   caused by: because"
        );
    }
    assert_eq!(
        no_default_branch().report(),
        vec!["Error: Cannot determine default branch"]
    );
}

#[test]
fn dirty_worktrees_stop_the_sync() {
    let opts = SyncOptions {
        all: true,
        ..NO_OPTIONS
    };
    assert_eq!(
        last(
            opts,
            vec![
                surveyed(stack(), &[]),
                Event::Name(None),
                output(" M file\n"),
                output("M  other"),
                output(""),
            ]
        ),
        "fail Error: worktrees have uncommitted changes /   caused by:   - a\n  - b\n\nCommit or stash changes before running `wt sync`."
    );
}

#[test]
fn rebase_in_progress_stops_the_sync() {
    assert_eq!(
        last(
            NO_OPTIONS,
            vec![
                surveyed(stack(), &[]),
                name("a"),
                output(""),
                output(""),
                Event::Flag(false),
                Event::Flag(true),
            ]
        ),
        "fail Error: branch 'b' has a rebase in progress /   caused by: Resolve it with `git rebase --continue` or `git rebase --abort` first."
    );
}

#[test]
fn dry_run_shows_the_plan() {
    let opts = SyncOptions {
        dry_run: true,
        all: true,
        push: true,
        prune: true,
        ..NO_OPTIONS
    };
    let log = play(opts, vec![surveyed(stack(), &["done"]), Event::Name(None)]);
    assert_eq!(
        log,
        vec![
            "survey",
            "current branch",
            "Dependency tree:",
            "main",
            "├── a",
            "│   └── b",
            "└── c",
            "",
            "Planned operations:",
            "  rebase a onto main",
            "  rebase b onto a",
            "  rebase c onto main",
            "finish",
        ]
    );
}

#[test]
fn verbose_dry_run_shows_commands() {
    let opts = SyncOptions {
        dry_run: true,
        all: true,
        verbose: true,
        ..NO_OPTIONS
    };
    let log = play(
        opts,
        vec![
            surveyed(stack(), &[]),
            name("a"),
            contents("b=def5678\n"),
            // a: main has moved on.
            name("abc1234"),
            output("m2\n"),
            // b: stands on a, which is going to move.
            name("a1"),
            output("a1\n"),
            // c: up to date.
            name("m2"),
            output("m2\n"),
        ],
    );
    assert_eq!(
        log[2..].to_vec(),
        vec![
            "read points",
            "merge-base main a",
            "git rev-parse main",
            "merge-base a b",
            "git rev-parse a",
            "merge-base main c",
            "git rev-parse main",
            "Dependency tree:",
            "main",
            "├── a",
            "│   └── b",
            "└── c",
            "",
            "Planned operations:",
            "  rebase a onto main",
            "    $ git rebase --onto main abc1234 a",
            "  rebase b onto a",
            "    $ git rebase --onto a def5678 b",
            "  rebase c onto main",
            "finish",
        ]
    );
}

#[test]
fn preview_of_a_whole_sync() {
    let opts = SyncOptions {
        dry_run: true,
        verbose: true,
        ..NO_OPTIONS
    };
    let log = play(
        opts,
        vec![
            surveyed(
                tree(vec![
                    node("main", None, &["feature-a", "feature-c"]),
                    node("feature-a", Some("main"), &["feature-b"]),
                    node("feature-b", Some("feature-a"), &[]),
                    node("feature-c", Some("main"), &[]),
                ]),
                &[],
            ),
            // On the default branch all stacks are the current one.
            name("main"),
            contents("feature-b=def5678\n"),
            name("abc1234"),
            output("m2\n"),
            name("def5678"),
            output("a1\n"),
            name("abc1234"),
            output("m2\n"),
        ],
    );
    let from = log.iter().position(|l| l == "Dependency tree:").unwrap();
    assert_eq!(
        log[from..].to_vec(),
        vec![
            "Dependency tree:",
            "main",
            "├── feature-a",
            "│   └── feature-b",
            "└── feature-c",
            "",
            "Planned operations:",
            "  rebase feature-a onto main",
            "    $ git rebase --onto main abc1234 feature-a",
            "  rebase feature-b onto feature-a",
            "    $ git rebase --onto feature-a def5678 feature-b",
            "  rebase feature-c onto main",
            "    $ git rebase --onto main abc1234 feature-c",
            "finish",
        ]
    );
}

#[test]
fn nothing_to_sync() {
    let all = SyncOptions {
        all: true,
        ..NO_OPTIONS
    };
    let empty = || tree(vec![node("main", None, &[])]);
    let events = |current: &str| {
        vec![
            surveyed(empty(), &[]),
            name(current),
            Event::Done,
            Event::Done,
            contents("old=1\n"),
            Event::Done,
        ]
    };
    assert_eq!(
        play(all, events("main"))[2..].to_vec(),
        vec![
            "+ All branches are up to date.",
            "mkdir",
            "stack \"\"",
            "read points",
            "points \"old=1\\n\"",
            "finish",
        ]
    );
    assert_eq!(
        play(NO_OPTIONS, events("gone"))[2..].to_vec(),
        vec![
            "+ Branch *gone* is not part of any stack. Nothing to sync.",
            "mkdir",
            "stack \"\"",
            "read points",
            "points \"old=1\\n\"",
            "finish",
        ]
    );
    let push = SyncOptions { push: true, ..all };
    assert_eq!(last(push, events("main")), "finish");
}

#[test]
fn integrated_worktrees_are_removed_without_a_sync() {
    for (all, message) in [
        (true, "+ All branches are up to date."),
        (false, "+ Branch *feature* is not part of any stack. Nothing to sync."),
    ] {
        let opts = SyncOptions {
            all,
            prune: true,
            ..NO_OPTIONS
        };
        let log = play(
            opts,
            vec![
                surveyed(tree(vec![node("main", None, &[])]), &["feature"]),
                name("feature"),
                Event::Done,
                Event::Done,
                Event::Contents(None),
                Event::Flag(false),
                Event::Name(None),
                Event::Done,
                Event::Done,
                Event::Done,
            ],
        );
        assert_eq!(
            log[2..].to_vec(),
            vec![
                message,
                "mkdir",
                "stack \"\"",
                "read points",
                "",
                "> Removing integrated worktree *feature*...",
                "upstream? feature",
                "remote? feature",
                "git worktree remove /wt/feature",
                "git branch -D feature",
                "+ Removed integrated worktree *feature*",
                "points \"\\n\"",
                "finish",
            ]
        );
    }
}

#[test]
fn dry_run_removes_nothing() {
    let opts = SyncOptions {
        all: true,
        prune: true,
        dry_run: true,
        ..NO_OPTIONS
    };
    let log = play(
        opts,
        vec![
            surveyed(tree(vec![node("main", None, &[])]), &["feature"]),
            name("main"),
        ],
    );
    assert_eq!(log[2..].to_vec(), vec!["+ All branches are up to date.", "finish"]);
}

#[test]
fn push_and_prune_after_a_sync() {
    let opts = SyncOptions {
        push: true,
        prune: true,
        force: true,
        ..NO_OPTIONS
    };
    let log = play(
        opts,
        vec![
            surveyed(stack(), &["d1", "d2", "d3"]),
            name("a"),
            output(""),
            output(""),
            Event::Flag(false),
            Event::Flag(false),
            Event::Done,
            Event::Done,
            Event::Contents(None),
            name("m1"),
            output("m1"),
            name("a1"),
            output("a1"),
            // Upstreams of a and b.
            Event::Flag(true),
            Event::Flag(true),
            Event::Name(None),
            Event::Done,
            name("fork"),
            failed("stale"),
            // d1 cannot be removed.
            Event::Flag(true),
            name("fork"),
            failed("dirty"),
            // d2 has no upstream, and its branch stays.
            Event::Flag(false),
            Event::Name(None),
            Event::Done,
            failed("checked out"),
            // d3 is gone on the remote already.
            Event::Flag(true),
            name("fork"),
            Event::Done,
            Event::Done,
            failed("not found"),
            Event::Done,
        ],
    );
    let from = log.iter().position(|l| l == "upstream? a").unwrap();
    assert_eq!(
        log[from..].to_vec(),
        vec![
            "upstream? a",
            "upstream? b",
            "",
            "remote? a",
            "> Pushing *a* to origin...",
            "git push --force-with-lease origin a",
            "+ Pushed *a*",
            "remote? b",
            "> Pushing *b* to fork...",
            "git push --force-with-lease fork b",
            "x Failed to push *b*: stale",
            "",
            "> Removing integrated worktree *d1*...",
            "upstream? d1",
            "remote? d1",
            "git worktree remove --force /wt/d1",
            "x Failed to remove worktree for *d1*: dirty",
            "? Clean up the worktree manually, then run: git worktree remove /wt/d1",
            "> Removing integrated worktree *d2*...",
            "upstream? d2",
            "remote? d2",
            "git worktree remove --force /wt/d2",
            "git branch -D d2",
            "! Failed to delete local branch *d2*: checked out",
            "+ Removed integrated worktree *d2*",
            "> Removing integrated worktree *d3*...",
            "upstream? d3",
            "remote? d3",
            "git worktree remove --force /wt/d3",
            "git branch -D d3",
            "git push fork --delete d3",
            "! Failed to delete remote branch *d3*: not found",
            "+ Removed integrated worktree *d3*",
            "points \"a=m1\\nb=a1\\n\"",
            "finish",
        ]
    );
}

#[test]
fn nothing_is_pushed_without_an_upstream() {
    let opts = SyncOptions {
        push: true,
        ..NO_OPTIONS
    };
    let mut events = up_to_rebase();
    events.push(Event::Done);
    events.push(Event::Flag(false));
    let log = play(opts, events);
    assert_eq!(
        log[log.len() - 3..].to_vec(),
        vec![
            "+ Sync complete: 1 rebased, 0 already up to date.",
            "upstream? a",
            "points \"a=m1\\n\"",
        ]
    );
}

#[test]
fn only_branches_with_an_upstream_are_pushed() {
    let opts = SyncOptions {
        push: true,
        all: true,
        ..NO_OPTIONS
    };
    let log = play(
        opts,
        vec![
            surveyed(stack(), &[]),
            Event::Name(None),
            output(""),
            output(""),
            output(""),
            Event::Flag(false),
            Event::Flag(false),
            Event::Flag(false),
            Event::Done,
            Event::Done,
            Event::Contents(None),
            name("m1"),
            output("m1"),
            name("a1"),
            output("a1"),
            name("m1"),
            output("m1"),
            Event::Flag(true),
            Event::Flag(false),
            Event::Flag(true),
            name("fork"),
            Event::Done,
            name("fork"),
            Event::Done,
            Event::Done,
        ],
    );
    let from = log.iter().position(|l| l == "upstream? a").unwrap();
    assert_eq!(
        log[from..].to_vec(),
        vec![
            "upstream? a",
            "upstream? b",
            "upstream? c",
            "",
            "remote? a",
            "> Pushing *a* to fork...",
            "git push --force-with-lease fork a",
            "+ Pushed *a*",
            "remote? c",
            "> Pushing *c* to fork...",
            "git push --force-with-lease fork c",
            "+ Pushed *c*",
            "points \"a=m1\\nb=a1\\nc=m1\\n\"",
            "finish",
        ]
    );
}

#[test]
fn dry_run_fetches_if_asked_to() {
    let opts = SyncOptions {
        dry_run: true,
        fetch: true,
        all: true,
        ..NO_OPTIONS
    };
    let log = play(
        opts,
        vec![Event::Done, surveyed(stack(), &[]), Event::Name(None)],
    );
    assert_eq!(log[1], "git fetch --prune");
    assert_eq!(log[log.len() - 1], "finish");
}

#[test]
fn branches_without_a_node_or_a_parent_are_passed_over() {
    let opts = SyncOptions {
        all: true,
        ..NO_OPTIONS
    };
    let log = play(
        opts,
        vec![
            surveyed(
                tree(vec![node("main", None, &["gone", "a"]), node("a", None, &[])]),
                &[],
            ),
            Event::Name(None),
            output(""),
            Event::Flag(false),
            Event::Done,
            Event::Done,
            Event::Contents(None),
            Event::Done,
        ],
    );
    assert_eq!(
        log[2..].to_vec(),
        vec![
            "/wt/a: git status --porcelain -uno",
            "rebasing? /wt/a",
            "mkdir",
            "stack \"gone\\na\\n\"",
            "read points",
            "points \"\\n\"",
            "finish",
        ]
    );
}

/// Two branches off the default branch: one whose parent has no worktree, and one below it.
#[test]
fn all_branches_are_synced_off_the_root_too() {
    let opts = SyncOptions {
        all: true,
        ..NO_OPTIONS
    };
    let log = play(
        opts,
        vec![
            surveyed(
                tree(vec![
                    node("main", None, &["z"]),
                    node("z", Some("main"), &[]),
                    node("a", Some("b"), &[]),
                    node("b", Some("elsewhere"), &["a"]),
                ]),
                &[],
            ),
            Event::Name(None),
            output(""),
            output(""),
            output(""),
            Event::Flag(false),
            Event::Flag(false),
            Event::Flag(false),
            Event::Done,
            Event::Done,
            Event::Contents(None),
            name("m1"),
            output("m1"),
            name("e0"),
            output("e1"),
            Event::Done,
            name("b0"),
            output("b1"),
            Event::Done,
            Event::Done,
        ],
    );
    assert_eq!(
        log[11..].to_vec(),
        vec![
            "merge-base main z",
            "git rev-parse main",
            "+ *z* is up to date with *main*",
            "merge-base elsewhere b",
            "git rev-parse elsewhere",
            "> Rebasing *b* onto *elsewhere*...",
            "/wt/b: git rebase --onto elsewhere e0 b",
            "+ Rebased *b* onto *elsewhere*",
            "merge-base b a",
            "git rev-parse b",
            "> Rebasing *a* onto *b*...",
            "/wt/a: git rebase --onto b b0 a",
            "+ Rebased *a* onto *b*",
            "+ Sync complete: 2 rebased, 1 already up to date.",
            "points \"a=b1\\nb=e1\\nz=m1\\n\"",
            "finish",
        ]
    );
}

#[test]
fn second_sync_rebases_nothing() {
    let opts = SyncOptions {
        all: true,
        ..NO_OPTIONS
    };
    let checks = || {
        vec![
            surveyed(stack(), &[]),
            Event::Name(None),
            output(""),
            output(""),
            output(""),
            Event::Flag(false),
            Event::Flag(false),
            Event::Flag(false),
            Event::Done,
            Event::Done,
        ]
    };
    let mut first = checks();
    first.extend(vec![
        Event::Contents(None),
        name("m0"),
        output("m1\n"),
        Event::Done,
        name("a0"),
        output("a1\n"),
        Event::Done,
        name("m0"),
        output("m1\n"),
        Event::Done,
    ]);
    assert_eq!(
        last(opts, first),
        "points \"a=m1\\nb=a1\\nc=m1\\n\""
    );
    let mut second = checks();
    second.extend(vec![
        contents("a=m1\nb=a1\nc=m1\n"),
        name("m1"),
        output("m1\n"),
        name("a1"),
        output("a1\n"),
        name("m1"),
        output("m1\n"),
        Event::Done,
    ]);
    let log = play(opts, second);
    assert!(log.iter().all(|line| !line.contains("git rebase")));
    assert_eq!(
        log[log.len() - 3..].to_vec(),
        vec![
            "+ All branches are up to date.",
            "points \"a=m1\\nb=a1\\nc=m1\\n\"",
            "finish",
        ]
    );
}

#[test]
fn flags_and_options() {
    assert_eq!(flag_pair(true, false), Some(true));
    assert_eq!(flag_pair(true, true), Some(true));
    assert_eq!(flag_pair(false, true), Some(false));
    assert_eq!(flag_pair(false, false), None);
    let none = Flags {
        stack: false,
        all: false,
        fetch: false,
        no_fetch: false,
        push: false,
        no_push: false,
        prune: false,
        no_prune: false,
        force: false,
        verbose: false,
        dry_run: false,
    };
    assert_eq!(SyncOptions::from_flags(none), NO_OPTIONS);
    assert!(SyncOptions::from_flags(Flags { all: true, ..none }).all);
    assert!(
        !SyncOptions::from_flags(Flags {
            all: true,
            stack: true,
            ..none
        })
        .all
    );
    let some = SyncOptions::from_flags(Flags {
        fetch: true,
        no_push: true,
        prune: true,
        force: true,
        verbose: true,
        dry_run: true,
        ..none
    });
    assert_eq!(
        some,
        SyncOptions {
            fetch: true,
            all: false,
            push: false,
            prune: true,
            force: true,
            verbose: true,
            dry_run: true,
        }
    );
}

#[test]
fn numbers_in_decimal() {
    for n in [0, 7, 10, 42, 1000, 98765, usize::MAX] {
        assert_eq!(to_decimal(n), n.to_string());
    }
}

#[test]
fn actions_without_a_git_command() {
    assert!(git_command(&Action::Survey).is_none());
    assert!(git_command(&Action::Finish).is_none());
    assert!(git_command(&Action::MakeDataDir).is_none());
}
