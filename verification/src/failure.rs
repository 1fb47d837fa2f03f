//! What is reported when a sync cannot go on.

use vstd::prelude::*;
use vstd::string::StringExecFns;

use crate::text;

verus! {

/// A failure: what went wrong, then what caused it, the nearest cause first.
#[derive(Debug, PartialEq, Eq)]
pub struct Failure {
    pub message: String,
    pub causes: Vec<String>,
}

/// What a `Failure` says.
#[verifier::ext_equal]
pub struct Fault {
    pub message: Seq<char>,
    pub causes: Seq<Seq<char>>,
}

impl View for Failure {
    type V = Fault;

    open spec fn view(&self) -> Fault {
        Fault { message: self.message@, causes: text::texts(self.causes@) }
    }
}

impl Fault {
    /// The fault that `message` sums up.
    pub open spec fn under(self, message: Seq<char>) -> Fault {
        Fault { message, causes: seq![self.message] + self.causes }
    }

    /// The lines that report the fault.
    pub open spec fn lines(self) -> Seq<Seq<char>> {
        seq!["Error: "@ + self.message] + Seq::new(
            self.causes.len(),
            |i: int| "  caused by: "@ + self.causes[i],
        )
    }
}

/// A fault without a cause.
pub open spec fn plain_fault(message: Seq<char>) -> Fault {
    Fault { message, causes: seq![] }
}

/// The default branch `root` has no worktree.
pub open spec fn no_root_worktree(root: Seq<char>) -> Fault {
    plain_fault(
        "Default branch '"@ + root + "' has no worktree. Cannot build dependency tree."@,
    )
}

/// The current worktree has no branch whose stack could be synced.
pub open spec fn no_current() -> Fault {
    plain_fault("Current worktree has no branch. Use --all to sync all branches."@)
}

/// One line for each of `branches`.
pub open spec fn bullets(branches: Seq<Seq<char>>) -> Seq<char>
    decreases branches.len(),
{
    if branches.len() == 0 {
        seq![]
    } else if branches.len() == 1 {
        "  - "@ + branches[0]
    } else {
        bullets(branches.drop_last()) + "\n  - "@ + branches.last()
    }
}

/// The worktrees of `branches` have tracked changes.
pub open spec fn uncommitted(branches: Seq<Seq<char>>) -> Fault {
    plain_fault(
        bullets(branches) + "\n\nCommit or stash changes before running `wt sync`."@,
    ).under("worktrees have uncommitted changes"@)
}

/// A rebase of `branch` is in progress.
pub open spec fn rebase_in_progress(branch: Seq<char>) -> Fault {
    plain_fault(
        "Resolve it with `git rebase --continue` or `git rebase --abort` first."@,
    ).under("branch '"@ + branch + "' has a rebase in progress"@)
}

/// A rebase stopped at a conflict.
pub open spec fn conflict() -> Fault {
    plain_fault("rebase conflict — resolve and re-run `wt sync`"@)
}

/// What is said of a rebase that failed for another reason.
pub open spec fn rebase_failed(branch: Seq<char>, parent: Seq<char>) -> Seq<char> {
    "Failed to rebase "@ + branch + " onto "@ + parent
}

/// The default branch is not known.
pub open spec fn no_root() -> Fault {
    plain_fault("Cannot determine default branch"@)
}

/// The stack file is there but cannot be read.
pub open spec fn unreadable_stack(fault: Fault) -> Fault {
    fault.under("Failed to read stack file"@)
}

impl Failure {
    /// A failure without a cause.
    pub fn new(message: String) -> (failure: Failure)
        ensures
            failure@ == plain_fault(message@),
    {
        let failure = Failure { message, causes: Vec::new() };
        assert(failure@ =~= plain_fault(failure.message@));
        failure
    }

    /// The failure that `message` sums up.
    pub fn context(self, message: String) -> (failure: Failure)
        ensures
            failure@ == self@.under(message@),
    {
        let mut causes: Vec<String> = Vec::new();
        causes.push(self.message);
        let mut i: usize = 0;
        assert(text::texts(causes@) =~= seq![self.message@]);
        while i < self.causes.len()
            invariant
                i <= self.causes@.len(),
                text::texts(causes@) == seq![self.message@] + text::texts(self.causes@).take(
                    i as int,
                ),
            decreases self.causes@.len() - i,
        {
            let ghost before = text::texts(causes@);
            causes.push(self.causes[i].clone());
            assert(text::texts(causes@) =~= before.push(self.causes@[i as int]@));
            i = i + 1;
        }
        assert(text::texts(self.causes@).take(i as int) =~= text::texts(self.causes@));
        Failure { message, causes }
    }

    /// The same failure once more.
    pub fn copy(&self) -> (failure: Failure)
        ensures
            failure@ == self@,
    {
        let mut causes: Vec<String> = Vec::new();
        let mut i: usize = 0;
        while i < self.causes.len()
            invariant
                i <= self.causes@.len(),
                text::texts(causes@) == text::texts(self.causes@).take(i as int),
            decreases self.causes@.len() - i,
        {
            let ghost before = text::texts(causes@);
            causes.push(self.causes[i].clone());
            assert(text::texts(causes@) =~= before.push(self.causes@[i as int]@));
            i = i + 1;
        }
        Failure { message: self.message.clone(), causes }
    }

    /// The lines that report the failure.
    pub fn report(&self) -> (lines: Vec<String>)
        ensures
            text::texts(lines@) == self@.lines(),
    {
        let mut lines: Vec<String> = Vec::new();
        lines.push(text::joined("Error: ", self.message.as_str()));
        let mut i: usize = 0;
        assert(text::texts(lines@) =~= self@.lines().take(1));
        while i < self.causes.len()
            invariant
                i <= self.causes@.len(),
                text::texts(lines@) == self@.lines().take(i + 1),
            decreases self.causes@.len() - i,
        {
            let ghost before = text::texts(lines@);
            lines.push(text::joined("  caused by: ", self.causes[i].as_str()));
            assert(text::texts(lines@) =~= before.push(self@.lines()[i + 1]));
            i = i + 1;
        }
        assert(self@.lines().take(i + 1) =~= self@.lines());
        lines
    }
}

/// The default branch `root` has no worktree.
pub fn no_default_worktree(root: &str) -> (failure: Failure)
    ensures
        failure@ == no_root_worktree(root@),
{
    let mut message = text::joined("Default branch '", root);
    message.append("' has no worktree. Cannot build dependency tree.");
    Failure::new(message)
}

/// The default branch is not known.
pub fn no_default_branch() -> (failure: Failure)
    ensures
        failure@ == no_root(),
{
    Failure::new("Cannot determine default branch".to_owned())
}

/// The stack file is there but cannot be read.
pub fn unreadable_stack_file(failure: Failure) -> (summed: Failure)
    ensures
        summed@ == unreadable_stack(failure@),
{
    failure.context("Failed to read stack file".to_owned())
}

/// The current worktree has no branch whose stack could be synced.
pub fn no_current_branch() -> (failure: Failure)
    ensures
        failure@ == no_current(),
{
    Failure::new("Current worktree has no branch. Use --all to sync all branches.".to_owned())
}

/// The worktrees of `branches` have tracked changes.
pub fn uncommitted_changes(branches: &Vec<String>) -> (failure: Failure)
    ensures
        failure@ == uncommitted(text::texts(branches@)),
{
    let ghost all = text::texts(branches@);
    let mut list = String::new();
    let mut i: usize = 0;
    assert(all.take(0) =~= seq![]);
    while i < branches.len()
        invariant
            i <= branches@.len(),
            all == text::texts(branches@),
            list@ == bullets(all.take(i as int)),
        decreases branches@.len() - i,
    {
        let ghost next = all.take(i + 1);
        assert(next.drop_last() =~= all.take(i as int));
        if i > 0 {
            list.append("\n  - ");
        } else {
            list.append("  - ");
        }
        list.append(branches[i].as_str());
        assert(list@ =~= bullets(next));
        i = i + 1;
    }
    assert(all.take(i as int) =~= all);
    list.append("\n\nCommit or stash changes before running `wt sync`.");
    Failure::new(list).context("worktrees have uncommitted changes".to_owned())
}

/// A rebase of `branch` is in progress.
pub fn rebasing_already(branch: &str) -> (failure: Failure)
    ensures
        failure@ == rebase_in_progress(branch@),
{
    let mut message = text::joined("branch '", branch);
    message.append("' has a rebase in progress");
    Failure::new(
        "Resolve it with `git rebase --continue` or `git rebase --abort` first.".to_owned(),
    ).context(message)
}

/// A rebase stopped at a conflict.
pub fn stopped_at_conflict() -> (failure: Failure)
    ensures
        failure@ == conflict(),
{
    Failure::new("rebase conflict — resolve and re-run `wt sync`".to_owned())
}

/// What is said of a rebase that failed for another reason.
pub fn rebase_failed_message(branch: &str, parent: &str) -> (message: String)
    ensures
        message@ == rebase_failed(branch@, parent@),
{
    let mut message = text::joined("Failed to rebase ", branch);
    message.append(" onto ");
    message.append(parent);
    message
}

} // verus!
