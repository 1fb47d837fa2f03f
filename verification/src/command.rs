//! The git commands behind the actions.

use std::path::PathBuf;

use vstd::prelude::*;

use crate::plan;
use crate::state::Action;

verus! {

/// An argument of a git command.
#[derive(Debug, PartialEq, Eq)]
pub enum Argument {
    Text(String),
    Path(PathBuf),
}

/// A git command, and the worktree in which it is run if not in the current one.
#[derive(Debug, PartialEq, Eq)]
pub struct GitCommand {
    pub place: Option<PathBuf>,
    pub arguments: Vec<Argument>,
}

/// What an `Argument` says.
pub enum Word {
    Text(Seq<char>),
    Path(PathBuf),
}

impl View for Argument {
    type V = Word;

    open spec fn view(&self) -> Word {
        match *self {
            Argument::Text(text) => Word::Text(text@),
            Argument::Path(path) => Word::Path(path),
        }
    }
}

impl GitCommand {
    /// The words of the command.
    pub open spec fn words(&self) -> Seq<Word> {
        Seq::new(self.arguments@.len(), |i: int| self.arguments@[i]@)
    }
}

/// The words of the git command that does `action`; none where git is not run for it.
pub open spec fn words_for(action: Action) -> Option<Seq<Word>> {
    match action {
        Action::Fetch => Some(seq![Word::Text("fetch"@), Word::Text("--prune"@)]),
        Action::Status { .. } => Some(
            seq![Word::Text("status"@), Word::Text("--porcelain"@), Word::Text("-uno"@)],
        ),
        Action::Tip { branch } => Some(seq![Word::Text("rev-parse"@), Word::Text(branch@)]),
        Action::Rebase { parent, base, branch, .. } => Some(
            seq![
                Word::Text("rebase"@),
                Word::Text("--onto"@),
                Word::Text(parent@),
                Word::Text(base@),
                Word::Text(branch@),
            ],
        ),
        Action::Push { remote, branch } => Some(
            seq![
                Word::Text("push"@),
                Word::Text("--force-with-lease"@),
                Word::Text(remote@),
                Word::Text(branch@),
            ],
        ),
        Action::RemoveWorktree { path, force } => Some(
            if force {
                seq![
                    Word::Text("worktree"@),
                    Word::Text("remove"@),
                    Word::Text("--force"@),
                    Word::Path(path),
                ]
            } else {
                seq![Word::Text("worktree"@), Word::Text("remove"@), Word::Path(path)]
            },
        ),
        Action::DeleteBranch { branch } => Some(
            seq![Word::Text("branch"@), Word::Text("-D"@), Word::Text(branch@)],
        ),
        Action::DeleteRemoteBranch { remote, branch } => Some(
            seq![
                Word::Text("push"@),
                Word::Text(remote@),
                Word::Text("--delete"@),
                Word::Text(branch@),
            ],
        ),
        _ => None,
    }
}

/// The worktree in which the command for `action` is run, if not in the current one.
pub open spec fn place_for(action: Action) -> Option<PathBuf> {
    match action {
        Action::Status { path } => Some(path),
        Action::Rebase { path, .. } => Some(path),
        _ => None,
    }
}

fn word(text: &str) -> (argument: Argument)
    ensures
        argument@ == Word::Text(text@),
{
    Argument::Text(text.to_owned())
}

/// The git command that does `action`, where git is run for it.
pub fn git_command(action: &Action) -> (command: Option<GitCommand>)
    ensures
        match command {
            Some(found) => words_for(*action) == Some(found.words()) && found.place == place_for(
                *action,
            ),
            None => words_for(*action) is None,
        },
{
    let mut arguments: Vec<Argument> = Vec::new();
    let mut place: Option<PathBuf> = None;
    match action {
        Action::Fetch => {
            arguments.push(word("fetch"));
            arguments.push(word("--prune"));
        },
        Action::Status { path } => {
            arguments.push(word("status"));
            arguments.push(word("--porcelain"));
            arguments.push(word("-uno"));
            place = Some(path.clone());
        },
        Action::Tip { branch } => {
            arguments.push(word("rev-parse"));
            arguments.push(word(branch.as_str()));
        },
        Action::Rebase { path, parent, base, branch } => {
            arguments.push(word("rebase"));
            arguments.push(word("--onto"));
            arguments.push(word(parent.as_str()));
            arguments.push(word(base.as_str()));
            arguments.push(word(branch.as_str()));
            place = Some(path.clone());
        },
        Action::Push { remote, branch } => {
            arguments.push(word("push"));
            arguments.push(word("--force-with-lease"));
            arguments.push(word(remote.as_str()));
            arguments.push(word(branch.as_str()));
        },
        Action::RemoveWorktree { path, force } => {
            arguments.push(word("worktree"));
            arguments.push(word("remove"));
            if *force {
                arguments.push(word("--force"));
            }
            arguments.push(Argument::Path(path.clone()));
        },
        Action::DeleteBranch { branch } => {
            arguments.push(word("branch"));
            arguments.push(word("-D"));
            arguments.push(word(branch.as_str()));
        },
        Action::DeleteRemoteBranch { remote, branch } => {
            arguments.push(word("push"));
            arguments.push(word(remote.as_str()));
            arguments.push(word("--delete"));
            arguments.push(word(branch.as_str()));
        },
        _ => {
            return None;
        },
    }
    let command = GitCommand { place, arguments };
    assert(command.words() =~= words_for(*action)->0);
    Some(command)
}

/// Text words with a space between each two.
pub open spec fn spoken(words: Seq<Word>) -> Seq<char>
    decreases words.len(),
{
    if words.len() == 0 {
        seq![]
    } else if words.len() == 1 {
        words[0]->Text_0
    } else {
        spoken(words.drop_last()) + " "@ + words.last()->Text_0
    }
}

proof fn lemma_spoken(words: Seq<Word>)
    requires
        2 <= words.len() <= 5,
    ensures
        ({
            let w = |i: int| words[i]->Text_0;
            &&& words.len() == 2 ==> spoken(words) == w(0) + " "@ + w(1)
            &&& words.len() == 3 ==> spoken(words) == w(0) + " "@ + w(1) + " "@ + w(2)
            &&& words.len() == 4 ==> spoken(words) == w(0) + " "@ + w(1) + " "@ + w(2) + " "@ + w(3)
            &&& words.len() == 5 ==> spoken(words) == w(0) + " "@ + w(1) + " "@ + w(2) + " "@ + w(3)
                + " "@ + w(4)
        }),
{
    reveal_with_fuel(spoken, 6);
}

/// What git is told to do for an action: a rebase is told in the words that are shown of it, in the
/// worktree of the branch; changes are asked for there too, and all else in the current worktree.
/// A push replaces what is on the remote only if it is as it was last seen.
pub proof fn law_commands(action: Action)
    ensures
        match action {
            Action::Fetch => words_for(action) is Some && spoken(words_for(action)->0) == "fetch"@
                + " "@ + "--prune"@,
            Action::Status { path } => words_for(action) is Some && spoken(words_for(action)->0)
                == "status"@ + " "@ + "--porcelain"@ + " "@ + "-uno"@ && place_for(action) == Some(
                path,
            ),
            Action::Tip { branch } => words_for(action) is Some && spoken(words_for(action)->0)
                == "rev-parse"@ + " "@ + branch@,
            Action::Rebase { path, parent, base, branch } => words_for(action) is Some
                && "    $ git "@ + spoken(words_for(action)->0) == plan::command(
                parent@,
                base@,
                branch@,
            ) && place_for(action) == Some(path),
            Action::Push { remote, branch } => words_for(action) is Some && spoken(
                words_for(action)->0,
            ) == "push"@ + " "@ + "--force-with-lease"@ + " "@ + remote@ + " "@ + branch@,
            Action::DeleteBranch { branch } => words_for(action) is Some && spoken(
                words_for(action)->0,
            ) == "branch"@ + " "@ + "-D"@ + " "@ + branch@,
            Action::DeleteRemoteBranch { remote, branch } => words_for(action) is Some && spoken(
                words_for(action)->0,
            ) == "push"@ + " "@ + remote@ + " "@ + "--delete"@ + " "@ + branch@,
            Action::RemoveWorktree { path, force } => {
                &&& words_for(action) matches Some(words)
                &&& words.len() == (if force {
                    4int
                } else {
                    3int
                })
                &&& words[0] == Word::Text("worktree"@)
                &&& words[1] == Word::Text("remove"@)
                &&& words.last() == Word::Path(path)
                &&& words.contains(Word::Text("--force"@)) <==> force
            },
            _ => words_for(action) is None,
        },
        !(action is Status || action is Rebase) ==> place_for(action) is None,
{
    reveal_strlit("remove");
    reveal_strlit("worktree");
    reveal_strlit("--force");
    assert("worktree"@.len() == 8);
    assert("--force"@.len() == 7);
    assert("remove"@.len() == 6);
    if action is RemoveWorktree {
        let words = words_for(action)->0;
        if action->force {
            assert(words[2] == Word::Text("--force"@));
        }
    } else if let Some(words) = words_for(action) {
        lemma_spoken(words);
        if action is Rebase {
            reveal_strlit("    $ git ");
            reveal_strlit("rebase");
            reveal_strlit("--onto");
            reveal_strlit(" ");
            reveal_strlit("    $ git rebase --onto ");
            assert("    $ git "@ + "rebase"@ + " "@ + "--onto"@ + " "@
                =~= "    $ git rebase --onto "@);
            assert("    $ git "@ + spoken(words) =~= ("    $ git "@ + "rebase"@ + " "@ + "--onto"@
                + " "@) + words[2]->Text_0 + " "@ + words[3]->Text_0 + " "@ + words[4]->Text_0);
        }
    }
}

} // verus!
