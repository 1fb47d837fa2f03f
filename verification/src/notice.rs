//! What is told to the user.

use std::path::PathBuf;

use vstd::prelude::*;
use vstd::string::StringExecFns;

use crate::text;

verus! {

/// How a notice is set off from others.
#[derive(Clone, Copy, Debug, PartialEq, Eq, Structural)]
pub enum Level {
    Progress,
    Success,
    Warning,
    Error,
    Hint,
    /// No symbol and no colour.
    Line,
}

/// A piece of a notice.
#[derive(Debug, PartialEq, Eq)]
pub enum Span {
    Plain(String),
    Bold(String),
    /// A path, shown as it is.
    Path(PathBuf),
}

/// A message to the user: pieces of text, some of them bold.
#[derive(Debug, PartialEq, Eq)]
pub struct Notice {
    pub level: Level,
    pub spans: Vec<Span>,
}

/// What a `Span` says.
pub enum Piece {
    Plain(Seq<char>),
    Bold(Seq<char>),
    Path(PathBuf),
}

/// What a `Notice` says.
#[verifier::ext_equal]
pub struct Message {
    pub level: Level,
    pub pieces: Seq<Piece>,
}

impl View for Span {
    type V = Piece;

    open spec fn view(&self) -> Piece {
        match *self {
            Span::Plain(text) => Piece::Plain(text@),
            Span::Bold(text) => Piece::Bold(text@),
            Span::Path(path) => Piece::Path(path),
        }
    }
}

impl View for Notice {
    type V = Message;

    open spec fn view(&self) -> Message {
        Message {
            level: self.level,
            pieces: Seq::new(self.spans@.len(), |i: int| self.spans@[i]@),
        }
    }
}

/// What a list of notices says.
pub open spec fn messages(notices: Seq<Notice>) -> Seq<Message> {
    Seq::new(notices.len(), |i: int| notices[i]@)
}

/// `names` with a comma and a space between each two.
pub open spec fn comma_list(names: Seq<Seq<char>>) -> Seq<char>
    decreases names.len(),
{
    if names.len() == 0 {
        seq![]
    } else if names.len() == 1 {
        names[0]
    } else {
        comma_list(names.drop_last()) + ", "@ + names.last()
    }
}

/// The digit for `n`, which is below ten.
pub open spec fn digit(n: nat) -> char {
    seq!['0', '1', '2', '3', '4', '5', '6', '7', '8', '9'][n as int]
}

/// `n` in decimal.
pub open spec fn decimal(n: nat) -> Seq<char>
    decreases n,
{
    if n < 10 {
        seq![digit(n)]
    } else {
        decimal(n / 10).push(digit(n % 10))
    }
}

/// `n` in decimal.
pub fn to_decimal(n: usize) -> (number: String)
    ensures
        number@ == decimal(n as nat),
    decreases n,
{
    let last: usize = n % 10;
    let c = match last {
        0 => '0',
        1 => '1',
        2 => '2',
        3 => '3',
        4 => '4',
        5 => '5',
        6 => '6',
        7 => '7',
        8 => '8',
        _ => '9',
    };
    let mut number = if n < 10 {
        String::new()
    } else {
        to_decimal(n / 10)
    };
    number.push(c);
    assert(number@ =~= decimal(n as nat));
    number
}

/// `names` with a comma and a space between each two.
pub fn to_comma_list(names: &Vec<String>) -> (list: String)
    ensures
        list@ == comma_list(text::texts(names@)),
{
    let ghost all = text::texts(names@);
    let mut list = String::new();
    let mut i: usize = 0;
    assert(all.take(0) =~= seq![]);
    while i < names.len()
        invariant
            i <= names@.len(),
            all == text::texts(names@),
            list@ == comma_list(all.take(i as int)),
        decreases names@.len() - i,
    {
        let ghost next = all.take(i + 1);
        assert(next.drop_last() =~= all.take(i as int));
        if i > 0 {
            list.append(", ");
        }
        list.append(names[i].as_str());
        assert(list@ =~= comma_list(next));
        i = i + 1;
    }
    assert(all.take(i as int) =~= all);
    list
}

impl Message {
    /// `branch` has several parents at the same distance, one of which was picked.
    pub open spec fn equidistant(
        branch: Seq<char>,
        names: Seq<Seq<char>>,
        picked: Seq<char>,
    ) -> Message {
        Message {
            level: Level::Warning,
            pieces: seq![
                Piece::Plain("Branch "@),
                Piece::Bold(branch),
                Piece::Plain(" has equidistant parents: "@),
                Piece::Plain(comma_list(names)),
                Piece::Plain(". Picked "@),
                Piece::Bold(picked),
                Piece::Plain("."@),
            ],
        }
    }

    /// How many branches were rebased and how many did not have to be.
    pub open spec fn summary(rebased: nat, skipped: nat) -> Message {
        Message {
            level: Level::Success,
            pieces: seq![
                Piece::Plain("Sync complete: "@),
                Piece::Plain(decimal(rebased)),
                Piece::Plain(" rebased, "@),
                Piece::Plain(decimal(skipped)),
                Piece::Plain(" already up to date."@),
            ],
        }
    }

    /// The remote is being asked.
    pub open spec fn fetching() -> Message {
        Message {
            level: Level::Progress,
            pieces: seq![
                Piece::Plain("Fetching from remote..."@),
            ],
        }
    }

    /// The remote has answered.
    pub open spec fn fetched() -> Message {
        Message {
            level: Level::Success,
            pieces: seq![
                Piece::Plain("Fetch complete"@),
            ],
        }
    }

    /// The current branch has no stack.
    pub open spec fn no_stack(branch: Seq<char>) -> Message {
        Message {
            level: Level::Success,
            pieces: seq![
                Piece::Plain("Branch "@),
                Piece::Bold(branch),
                Piece::Plain(" is not part of any stack. Nothing to sync."@),
            ],
        }
    }

    /// Nothing had to be rebased.
    pub open spec fn all_up_to_date() -> Message {
        Message {
            level: Level::Success,
            pieces: seq![
                Piece::Plain("All branches are up to date."@),
            ],
        }
    }

    /// `branch` already stands on the tip of `parent`.
    pub open spec fn up_to_date(branch: Seq<char>, parent: Seq<char>) -> Message {
        Message {
            level: Level::Success,
            pieces: seq![
                Piece::Bold(branch),
                Piece::Plain(" is up to date with "@),
                Piece::Bold(parent),
            ],
        }
    }

    /// `branch` is about to be rebased.
    pub open spec fn rebasing(branch: Seq<char>, parent: Seq<char>) -> Message {
        Message {
            level: Level::Progress,
            pieces: seq![
                Piece::Plain("Rebasing "@),
                Piece::Bold(branch),
                Piece::Plain(" onto "@),
                Piece::Bold(parent),
                Piece::Plain("..."@),
            ],
        }
    }

    /// `branch` is about to be rebased off the integrated branch `was`.
    pub open spec fn moving(branch: Seq<char>, parent: Seq<char>, was: Seq<char>) -> Message {
        Message {
            level: Level::Progress,
            pieces: seq![
                Piece::Plain("Rebasing "@),
                Piece::Bold(branch),
                Piece::Plain(" onto "@),
                Piece::Bold(parent),
                Piece::Plain(" (was on integrated "@),
                Piece::Bold(was),
                Piece::Plain(")"@),
                Piece::Plain("..."@),
            ],
        }
    }

    /// The rebase stopped at a conflict.
    pub open spec fn conflict(branch: Seq<char>, parent: Seq<char>) -> Message {
        Message {
            level: Level::Error,
            pieces: seq![
                Piece::Plain("Rebase conflict while rebasing "@),
                Piece::Bold(branch),
                Piece::Plain(" onto "@),
                Piece::Bold(parent),
            ],
        }
    }

    /// How to go on after a conflict in the worktree at `path`.
    pub open spec fn conflict_hint(path: PathBuf) -> Message {
        Message {
            level: Level::Hint,
            pieces: seq![
                Piece::Plain("Resolve conflicts in "@),
                Piece::Path(path),
                Piece::Plain(", then run:\n  cd "@),
                Piece::Path(path),
                Piece::Plain("\n  git rebase --continue\n  wt sync"@),
            ],
        }
    }

    /// `branch` was rebased.
    pub open spec fn rebased(branch: Seq<char>, parent: Seq<char>) -> Message {
        Message {
            level: Level::Success,
            pieces: seq![
                Piece::Plain("Rebased "@),
                Piece::Bold(branch),
                Piece::Plain(" onto "@),
                Piece::Bold(parent),
            ],
        }
    }

    /// An empty line.
    pub open spec fn blank() -> Message {
        Message {
            level: Level::Line,
            pieces: seq![],
        }
    }

    /// A line as it stands.
    pub open spec fn line(line: Seq<char>) -> Message {
        Message {
            level: Level::Line,
            pieces: seq![
                Piece::Plain(line),
            ],
        }
    }

    /// `branch` is about to be pushed.
    pub open spec fn pushing(branch: Seq<char>, remote: Seq<char>) -> Message {
        Message {
            level: Level::Progress,
            pieces: seq![
                Piece::Plain("Pushing "@),
                Piece::Bold(branch),
                Piece::Plain(" to "@),
                Piece::Plain(remote),
                Piece::Plain("..."@),
            ],
        }
    }

    /// `branch` was pushed.
    pub open spec fn pushed(branch: Seq<char>) -> Message {
        Message {
            level: Level::Success,
            pieces: seq![
                Piece::Plain("Pushed "@),
                Piece::Bold(branch),
            ],
        }
    }

    /// `branch` could not be pushed.
    pub open spec fn push_failed(branch: Seq<char>, error: Seq<char>) -> Message {
        Message {
            level: Level::Error,
            pieces: seq![
                Piece::Plain("Failed to push "@),
                Piece::Bold(branch),
                Piece::Plain(": "@),
                Piece::Plain(error),
            ],
        }
    }

    /// The worktree of the integrated `branch` is about to be removed.
    pub open spec fn removing(branch: Seq<char>) -> Message {
        Message {
            level: Level::Progress,
            pieces: seq![
                Piece::Plain("Removing integrated worktree "@),
                Piece::Bold(branch),
                Piece::Plain("..."@),
            ],
        }
    }

    /// The worktree of `branch` could not be removed.
    pub open spec fn remove_failed(branch: Seq<char>, error: Seq<char>) -> Message {
        Message {
            level: Level::Error,
            pieces: seq![
                Piece::Plain("Failed to remove worktree for "@),
                Piece::Bold(branch),
                Piece::Plain(": "@),
                Piece::Plain(error),
            ],
        }
    }

    /// How to remove the worktree at `path` by hand.
    pub open spec fn remove_hint(path: PathBuf) -> Message {
        Message {
            level: Level::Hint,
            pieces: seq![
                Piece::Plain("Clean up the worktree manually, then run: git worktree remove "@),
                Piece::Path(path),
            ],
        }
    }

    /// The local `branch` could not be deleted.
    pub open spec fn delete_failed(branch: Seq<char>, error: Seq<char>) -> Message {
        Message {
            level: Level::Warning,
            pieces: seq![
                Piece::Plain("Failed to delete local branch "@),
                Piece::Bold(branch),
                Piece::Plain(": "@),
                Piece::Plain(error),
            ],
        }
    }

    /// The remote `branch` could not be deleted.
    pub open spec fn remote_delete_failed(branch: Seq<char>, error: Seq<char>) -> Message {
        Message {
            level: Level::Warning,
            pieces: seq![
                Piece::Plain("Failed to delete remote branch "@),
                Piece::Bold(branch),
                Piece::Plain(": "@),
                Piece::Plain(error),
            ],
        }
    }

    /// The worktree of the integrated `branch` was removed.
    pub open spec fn removed(branch: Seq<char>) -> Message {
        Message {
            level: Level::Success,
            pieces: seq![
                Piece::Plain("Removed integrated worktree "@),
                Piece::Bold(branch),
            ],
        }
    }
}

impl Notice {
    fn start(level: Level) -> (notice: Notice)
        ensures
            notice@ == (Message { level, pieces: seq![] }),
    {
        let notice = Notice { level, spans: Vec::new() };
        assert(notice@.pieces =~= seq![]);
        notice
    }

    fn add_span(&mut self, span: Span)
        ensures
            final(self)@ == (Message {
                level: old(self)@.level,
                pieces: old(self)@.pieces.push(span@),
            }),
    {
        let ghost before = self@.pieces;
        let ghost piece = span@;
        self.spans.push(span);
        assert(self@.pieces =~= before.push(piece));
    }

    fn bold(&mut self, text: &str)
        ensures
            final(self)@ == (Message {
                level: old(self)@.level,
                pieces: old(self)@.pieces.push(Piece::Bold(text@)),
            }),
    {
        self.add_span(Span::Bold(text.to_owned()));
    }

    fn plain(&mut self, text: &str)
        ensures
            final(self)@ == (Message {
                level: old(self)@.level,
                pieces: old(self)@.pieces.push(Piece::Plain(text@)),
            }),
    {
        self.add_span(Span::Plain(text.to_owned()));
    }

    fn path(&mut self, path: &PathBuf)
        ensures
            final(self)@ == (Message {
                level: old(self)@.level,
                pieces: old(self)@.pieces.push(Piece::Path(*path)),
            }),
    {
        self.add_span(Span::Path(path.clone()));
    }

    /// `branch` has several parents at the same distance, one of which was picked.
    pub fn equidistant(branch: &str, names: &Vec<String>, picked: &str) -> (notice: Notice)
        ensures
            notice@ == Message::equidistant(branch@, text::texts(names@), picked@),
    {
        let mut notice = Notice::start(Level::Warning);
        notice.plain("Branch ");
        notice.bold(branch);
        notice.plain(" has equidistant parents: ");
        notice.plain(to_comma_list(names).as_str());
        notice.plain(". Picked ");
        notice.bold(picked);
        notice.plain(".");
        assert(notice@ =~= Message::equidistant(branch@, text::texts(names@), picked@));
        notice
    }

    /// How many branches were rebased and how many did not have to be.
    pub fn summary(rebased: usize, skipped: usize) -> (notice: Notice)
        ensures
            notice@ == Message::summary(rebased as nat, skipped as nat),
    {
        let mut notice = Notice::start(Level::Success);
        notice.plain("Sync complete: ");
        notice.plain(to_decimal(rebased).as_str());
        notice.plain(" rebased, ");
        notice.plain(to_decimal(skipped).as_str());
        notice.plain(" already up to date.");
        assert(notice@ =~= Message::summary(rebased as nat, skipped as nat));
        notice
    }

    /// The remote is being asked.
    pub fn fetching() -> (notice: Notice)
        ensures
            notice@ == Message::fetching(),
    {
        let mut notice = Notice::start(Level::Progress);
        notice.plain("Fetching from remote...");
        assert(notice@ =~= Message::fetching());
        notice
    }

    /// The remote has answered.
    pub fn fetched() -> (notice: Notice)
        ensures
            notice@ == Message::fetched(),
    {
        let mut notice = Notice::start(Level::Success);
        notice.plain("Fetch complete");
        assert(notice@ =~= Message::fetched());
        notice
    }

    /// The current branch has no stack.
    pub fn no_stack(branch: &str) -> (notice: Notice)
        ensures
            notice@ == Message::no_stack(branch@),
    {
        let mut notice = Notice::start(Level::Success);
        notice.plain("Branch ");
        notice.bold(branch);
        notice.plain(" is not part of any stack. Nothing to sync.");
        assert(notice@ =~= Message::no_stack(branch@));
        notice
    }

    /// Nothing had to be rebased.
    pub fn all_up_to_date() -> (notice: Notice)
        ensures
            notice@ == Message::all_up_to_date(),
    {
        let mut notice = Notice::start(Level::Success);
        notice.plain("All branches are up to date.");
        assert(notice@ =~= Message::all_up_to_date());
        notice
    }

    /// `branch` already stands on the tip of `parent`.
    pub fn up_to_date(branch: &str, parent: &str) -> (notice: Notice)
        ensures
            notice@ == Message::up_to_date(branch@, parent@),
    {
        let mut notice = Notice::start(Level::Success);
        notice.bold(branch);
        notice.plain(" is up to date with ");
        notice.bold(parent);
        assert(notice@ =~= Message::up_to_date(branch@, parent@));
        notice
    }

    /// `branch` is about to be rebased.
    pub fn rebasing(branch: &str, parent: &str) -> (notice: Notice)
        ensures
            notice@ == Message::rebasing(branch@, parent@),
    {
        let mut notice = Notice::start(Level::Progress);
        notice.plain("Rebasing ");
        notice.bold(branch);
        notice.plain(" onto ");
        notice.bold(parent);
        notice.plain("...");
        assert(notice@ =~= Message::rebasing(branch@, parent@));
        notice
    }

    /// `branch` is about to be rebased off the integrated branch `was`.
    pub fn moving(branch: &str, parent: &str, was: &str) -> (notice: Notice)
        ensures
            notice@ == Message::moving(branch@, parent@, was@),
    {
        let mut notice = Notice::start(Level::Progress);
        notice.plain("Rebasing ");
        notice.bold(branch);
        notice.plain(" onto ");
        notice.bold(parent);
        notice.plain(" (was on integrated ");
        notice.bold(was);
        notice.plain(")");
        notice.plain("...");
        assert(notice@ =~= Message::moving(branch@, parent@, was@));
        notice
    }

    /// The rebase stopped at a conflict.
    pub fn conflict(branch: &str, parent: &str) -> (notice: Notice)
        ensures
            notice@ == Message::conflict(branch@, parent@),
    {
        let mut notice = Notice::start(Level::Error);
        notice.plain("Rebase conflict while rebasing ");
        notice.bold(branch);
        notice.plain(" onto ");
        notice.bold(parent);
        assert(notice@ =~= Message::conflict(branch@, parent@));
        notice
    }

    /// How to go on after a conflict in the worktree at `path`.
    pub fn conflict_hint(path: &PathBuf) -> (notice: Notice)
        ensures
            notice@ == Message::conflict_hint(*path),
    {
        let mut notice = Notice::start(Level::Hint);
        notice.plain("Resolve conflicts in ");
        notice.path(path);
        notice.plain(", then run:\n  cd ");
        notice.path(path);
        notice.plain("\n  git rebase --continue\n  wt sync");
        assert(notice@ =~= Message::conflict_hint(*path));
        notice
    }

    /// `branch` was rebased.
    pub fn rebased(branch: &str, parent: &str) -> (notice: Notice)
        ensures
            notice@ == Message::rebased(branch@, parent@),
    {
        let mut notice = Notice::start(Level::Success);
        notice.plain("Rebased ");
        notice.bold(branch);
        notice.plain(" onto ");
        notice.bold(parent);
        assert(notice@ =~= Message::rebased(branch@, parent@));
        notice
    }

    /// An empty line.
    pub fn blank() -> (notice: Notice)
        ensures
            notice@ == Message::blank(),
    {
        let notice = Notice::start(Level::Line);
        assert(notice@ =~= Message::blank());
        notice
    }

    /// A line as it stands.
    pub fn line(line: &str) -> (notice: Notice)
        ensures
            notice@ == Message::line(line@),
    {
        let mut notice = Notice::start(Level::Line);
        notice.plain(line);
        assert(notice@ =~= Message::line(line@));
        notice
    }

    /// `branch` is about to be pushed.
    pub fn pushing(branch: &str, remote: &str) -> (notice: Notice)
        ensures
            notice@ == Message::pushing(branch@, remote@),
    {
        let mut notice = Notice::start(Level::Progress);
        notice.plain("Pushing ");
        notice.bold(branch);
        notice.plain(" to ");
        notice.plain(remote);
        notice.plain("...");
        assert(notice@ =~= Message::pushing(branch@, remote@));
        notice
    }

    /// `branch` was pushed.
    pub fn pushed(branch: &str) -> (notice: Notice)
        ensures
            notice@ == Message::pushed(branch@),
    {
        let mut notice = Notice::start(Level::Success);
        notice.plain("Pushed ");
        notice.bold(branch);
        assert(notice@ =~= Message::pushed(branch@));
        notice
    }

    /// `branch` could not be pushed.
    pub fn push_failed(branch: &str, error: &str) -> (notice: Notice)
        ensures
            notice@ == Message::push_failed(branch@, error@),
    {
        let mut notice = Notice::start(Level::Error);
        notice.plain("Failed to push ");
        notice.bold(branch);
        notice.plain(": ");
        notice.plain(error);
        assert(notice@ =~= Message::push_failed(branch@, error@));
        notice
    }

    /// The worktree of the integrated `branch` is about to be removed.
    pub fn removing(branch: &str) -> (notice: Notice)
        ensures
            notice@ == Message::removing(branch@),
    {
        let mut notice = Notice::start(Level::Progress);
        notice.plain("Removing integrated worktree ");
        notice.bold(branch);
        notice.plain("...");
        assert(notice@ =~= Message::removing(branch@));
        notice
    }

    /// The worktree of `branch` could not be removed.
    pub fn remove_failed(branch: &str, error: &str) -> (notice: Notice)
        ensures
            notice@ == Message::remove_failed(branch@, error@),
    {
        let mut notice = Notice::start(Level::Error);
        notice.plain("Failed to remove worktree for ");
        notice.bold(branch);
        notice.plain(": ");
        notice.plain(error);
        assert(notice@ =~= Message::remove_failed(branch@, error@));
        notice
    }

    /// How to remove the worktree at `path` by hand.
    pub fn remove_hint(path: &PathBuf) -> (notice: Notice)
        ensures
            notice@ == Message::remove_hint(*path),
    {
        let mut notice = Notice::start(Level::Hint);
        notice.plain("Clean up the worktree manually, then run: git worktree remove ");
        notice.path(path);
        assert(notice@ =~= Message::remove_hint(*path));
        notice
    }

    /// The local `branch` could not be deleted.
    pub fn delete_failed(branch: &str, error: &str) -> (notice: Notice)
        ensures
            notice@ == Message::delete_failed(branch@, error@),
    {
        let mut notice = Notice::start(Level::Warning);
        notice.plain("Failed to delete local branch ");
        notice.bold(branch);
        notice.plain(": ");
        notice.plain(error);
        assert(notice@ =~= Message::delete_failed(branch@, error@));
        notice
    }

    /// The remote `branch` could not be deleted.
    pub fn remote_delete_failed(branch: &str, error: &str) -> (notice: Notice)
        ensures
            notice@ == Message::remote_delete_failed(branch@, error@),
    {
        let mut notice = Notice::start(Level::Warning);
        notice.plain("Failed to delete remote branch ");
        notice.bold(branch);
        notice.plain(": ");
        notice.plain(error);
        assert(notice@ =~= Message::remote_delete_failed(branch@, error@));
        notice
    }

    /// The worktree of the integrated `branch` was removed.
    pub fn removed(branch: &str) -> (notice: Notice)
        ensures
            notice@ == Message::removed(branch@),
    {
        let mut notice = Notice::start(Level::Success);
        notice.plain("Removed integrated worktree ");
        notice.bold(branch);
        assert(notice@ =~= Message::removed(branch@));
        notice
    }
}

} // verus!
