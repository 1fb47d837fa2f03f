//! What notices look like.

use std::path::PathBuf;

use wt_sync::notice::{Level, Notice};
use wt_sync::style::{bold, styled};

#[test]
fn levels() {
    assert_eq!(
        styled(Level::Progress, "x"),
        "\u{1b}[36m◎\u{1b}[39m \u{1b}[36mx\u{1b}[39m"
    );
    assert_eq!(
        styled(Level::Success, "x"),
        "\u{1b}[32m✓\u{1b}[39m \u{1b}[32mx\u{1b}[39m"
    );
    assert_eq!(
        styled(Level::Warning, "x"),
        "\u{1b}[33m▲\u{1b}[39m \u{1b}[33mx\u{1b}[39m"
    );
    assert_eq!(
        styled(Level::Error, "x"),
        "\u{1b}[31m✗\u{1b}[39m \u{1b}[31mx\u{1b}[39m"
    );
    assert_eq!(
        styled(Level::Hint, "x"),
        "\u{1b}[2m↳\u{1b}[22m \u{1b}[2mx\u{1b}[22m"
    );
    assert_eq!(styled(Level::Line, "x"), "x");
    assert_eq!(styled(Level::Success, ""), "\u{1b}[32m✓\u{1b}[39m \u{1b}[32m\u{1b}[39m");
}

#[test]
fn bold_names() {
    assert_eq!(bold("main"), "\u{1b}[1mmain\u{1b}[22m");
    assert_eq!(
        Notice::pushed("a").render(""),
        "\u{1b}[32m✓\u{1b}[39m \u{1b}[32mPushed \u{1b}[1ma\u{1b}[22m\u{1b}[39m"
    );
    assert_eq!(Notice::pushed("a").first_path(), None);
}

#[test]
fn paths() {
    let path = PathBuf::from("/wt/a");
    let notice = Notice::conflict_hint(&path);
    assert_eq!(notice.first_path(), Some(path));
    assert_eq!(
        notice.render("/wt/a"),
        "\u{1b}[2m↳\u{1b}[22m \u{1b}[2mResolve conflicts in /wt/a, then run:\n  cd /wt/a\n  git rebase --continue\n  wt sync\u{1b}[22m"
    );
}

#[test]
fn plain_lines() {
    assert_eq!(Notice::blank().render(""), "");
    assert_eq!(Notice::line("├── a").render(""), "├── a");
}
