//! What holds of every sync.

use vstd::prelude::*;

use crate::failure;
use crate::failure::Fault;
use crate::fork_points;
use crate::state;
use crate::state::{Action, Event, Stage, State};
use crate::text;
use crate::tree;

verus! {

/// A dry run changes no branch, no worktree and no persisted file. All it may do besides looking
/// is to fetch.
pub proof fn law_dry_run_changes_nothing(state: State, action: Action)
    requires
        state.valid(),
        state.opts.dry_run,
        state.calls_for(action),
    ensures
        !state.stage.changes(),
        match action {
            Action::MakeDataDir
            | Action::WriteStackFile { .. }
            | Action::WriteForkPoints { .. }
            | Action::Rebase { .. }
            | Action::Push { .. }
            | Action::RemoveWorktree { .. }
            | Action::DeleteBranch { .. }
            | Action::DeleteRemoteBranch { .. } => false,
            _ => true,
        },
{
}

/// Branches are pushed and worktrees removed only if that was asked for.
pub proof fn law_only_what_was_asked(state: State, action: Action)
    requires
        state.valid(),
        state.calls_for(action),
    ensures
        action is Push ==> state.opts.push,
        action is RemoveWorktree || action is DeleteBranch || action is DeleteRemoteBranch
            ==> state.opts.prune,
{
}

/// Only integrated worktrees are removed, and by force only if that was asked for.
pub proof fn law_removes_only_integrated(state: State, action: Action)
    requires
        state.valid(),
        state.calls_for(action),
    ensures
        action matches Action::RemoveWorktree { path, force } ==> force == state.opts.force
            && exists|i: int| 0 <= i < state.integrated.len() && (#[trigger] state.integrated[i]).path == path,
        action matches Action::DeleteBranch { branch } ==> exists|i: int|
            0 <= i < state.integrated.len() && (#[trigger] state.integrated[i]).branch == branch@,
{
    if state.stage.prunes() {
        let site = state.integrated[state.at];
    }
}

/// If there is nothing to sync and this is no dry run, the files are written all the same. Once
/// the fork points are read, integrated worktrees are removed if that was asked for.
pub proof fn law_prunes_without_sync(
    state: State,
    current: Option<Seq<char>>,
    points: Map<Seq<char>, Seq<char>>,
)
    requires
        state.valid(),
        state.stage is Locate,
        !state.opts.dry_run,
        if state.opts.all {
            state.tree.sync_order().len() == 0
        } else {
            current matches Some(branch) && state.tree.stack_containing(branch).len() == 0
        },
    ensures
        state.after_name(current).state.stage is MakeDataDir,
        state.after_name(current).state.after_done().state.stage is WriteStack,
        state.after_name(current).state.after_done().state.after_done().state.stage is ReadPoints,
        ({
            let read = state.after_name(current).state.after_done().state.after_done().state;
            let last = read.after_points(points).state;
            &&& last.points == points
            &&& if state.opts.prune && state.integrated.len() > 0 {
                last.stage is PruneUpstream && last.at == 0
            } else {
                last.stage is SavePoints
            }
        }),
{
    let read = state.after_name(current).state.after_done().state.after_done().state;
    assert(read.next_child(0) == 0);
    assert(State { points, ..read }.next_child(0) == 0);
}

/// The base of a rebase is the parent that the branch was taken from, if that was integrated;
/// else the stored fork point; else the merge base. It is what git is told to cut at.
pub proof fn law_base(state: State, action: Action)
    requires
        state.valid(),
        state.stage is Rebase,
        state.calls_for(action),
    ensures
        action matches Action::Rebase { path, parent, base, branch } && branch@ == state.branch()
            && parent@ == state.parent() && path == state.node().path && (
        match state.node().original_parent {
            Some(original) => base@ == original,
            None => if state.points.contains_key(branch@) {
                base@ == state.points[branch@]
            } else {
                base@ == state.merge_base
            },
        }),
{
}

/// A rebase that stops at a conflict ends the sync: the fork points of the branches before it are
/// saved, and whatever comes of that, the sync fails.
pub proof fn law_conflict_stops(state: State)
    requires
        state.valid(),
        state.stage is AskConflict,
    ensures
        state.after_flag(true).state.stage is SaveAfterConflict,
        state.after_flag(true).state.points == state.points,
        state.after_flag(true).state.after_done().state.stage is Failed,
        state.after_flag(true).state.after_done().state.fault == failure::conflict(),
        forall|fault: Fault|
            (#[trigger] state.after_flag(true).state.after_failure(fault)).state.stage is Failed,
{
}

/// Fork points change only for the branch at hand, and only once it stands on the tip of its
/// parent: because it did so already, or because its rebase was done. Then that tip is its fork
/// point.
#[verifier::spinoff_prover]
#[verifier::rlimit(60)]
pub proof fn law_fork_points(state: State, event: Event)
    requires
        state.valid(),
        state.accepts(event),
        !(event is Contents),
    ensures
        state.after(event).state.points == (if state.stage is Rebase && event is Done {
            state.points.insert(state.branch(), state.tip)
        } else {
            match event {
                Event::Output(output) => if state.stage is FindTip && text::trim(output@)
                    == state.merge_base {
                    state.points.insert(state.branch(), state.merge_base)
                } else {
                    state.points
                },
                _ => state.points,
            }
        }),
{
    match event {
        Event::Done => lemma_points_after_done(state),
        Event::Failed(failure) => lemma_points_after_failure(state, failure@),
        Event::Name(name) => lemma_points_after_name(state, tree::optional_text(name)),
        Event::Output(output) => lemma_points_after_output(state, output@),
        Event::Flag(yes) => lemma_points_after_flag(state, yes),
        _ => {},
    }
}

proof fn lemma_points_after_done(state: State)
    ensures
        state.after_done().state.points == (if state.stage is Rebase {
            state.points.insert(state.branch(), state.tip)
        } else {
            state.points
        }),
{
}

proof fn lemma_points_after_failure(state: State, fault: Fault)
    ensures
        state.after_failure(fault).state.points == state.points,
{
}

proof fn lemma_points_after_name(state: State, name: Option<Seq<char>>)
    ensures
        state.after_name(name).state.points == state.points,
{
}

proof fn lemma_points_after_output(state: State, output: Seq<char>)
    requires
        state.stage is PreviewTip || state.stage is CheckStatus || state.stage is FindTip,
    ensures
        state.after_output(output).state.points == (if state.stage is FindTip && text::trim(output)
            == state.merge_base {
            state.points.insert(state.branch(), state.merge_base)
        } else {
            state.points
        }),
{
}

proof fn lemma_points_after_flag(state: State, yes: bool)
    ensures
        state.after_flag(yes).state.points == state.points,
{
}

/// A branch comes to be pushed exactly if it was found to have an upstream.
#[verifier::spinoff_prover]
#[verifier::rlimit(60)]
pub proof fn law_pushes_tracking_branches(state: State, event: Event)
    requires
        state.valid(),
        state.accepts(event),
    ensures
        state.after(event).state.pushable == (match event {
            Event::Flag(yes) => if state.stage is AskUpstream && yes {
                state.pushable.push(state.branch())
            } else {
                state.pushable
            },
            _ => state.pushable,
        }),
{
    match event {
        Event::Done => lemma_pushable_after_done(state),
        Event::Failed(failure) => lemma_pushable_after_failure(state, failure@),
        Event::Name(name) => lemma_pushable_after_name(state, tree::optional_text(name)),
        Event::Output(output) => lemma_pushable_after_output(state, output@),
        Event::Flag(yes) => lemma_pushable_after_flag(state, yes),
        Event::Contents(content) => lemma_pushable_after_points(
            state,
            state::points_in(content),
        ),
        _ => {},
    }
}

proof fn lemma_pushable_after_done(state: State)
    ensures
        state.after_done().state.pushable == state.pushable,
{
}

proof fn lemma_pushable_after_failure(state: State, fault: Fault)
    ensures
        state.after_failure(fault).state.pushable == state.pushable,
{
}

proof fn lemma_pushable_after_name(state: State, name: Option<Seq<char>>)
    ensures
        state.after_name(name).state.pushable == state.pushable,
{
}

proof fn lemma_pushable_after_output(state: State, output: Seq<char>)
    ensures
        state.after_output(output).state.pushable == state.pushable,
{
}

proof fn lemma_pushable_after_flag(state: State, yes: bool)
    ensures
        state.after_flag(yes).state.pushable == (if state.stage is AskUpstream && yes {
            state.pushable.push(state.branch())
        } else {
            state.pushable
        }),
{
}

proof fn lemma_pushable_after_points(state: State, points: Map<Seq<char>, Seq<char>>)
    ensures
        state.after_points(points).state.pushable == state.pushable,
{
}

/// What can come of an action. Whatever is done can fail, except for questions on an upstream or a
/// remote and for reading the fork points, which are answered one way or the other. At the end
/// nothing more can come.
pub proof fn law_replies(state: State, action: Action, event: Event)
    requires
        state.calls_for(action),
    ensures
        state.accepts(event) <==> (match action {
            Action::Fetch
            | Action::MakeDataDir
            | Action::WriteStackFile { .. }
            | Action::WriteForkPoints { .. }
            | Action::Rebase { .. }
            | Action::Push { .. }
            | Action::RemoveWorktree { .. }
            | Action::DeleteBranch { .. }
            | Action::DeleteRemoteBranch { .. } => event is Done || event is Failed,
            Action::Survey => event is Surveyed || event is Failed,
            Action::CurrentBranch | Action::MergeBase { .. } => event is Name || event is Failed,
            Action::Tip { .. } | Action::Status { .. } => event is Output || event is Failed,
            Action::RebaseState { .. } => event is Flag || event is Failed,
            Action::ReadForkPoints => event is Contents,
            Action::Upstream { .. } => event is Flag,
            Action::PushRemote { .. } => event is Name,
            Action::Finish | Action::Fail { .. } => false,
        }),
{
}

/// A branch of the queue is looked at if the tree has a node for it, and rebased if that node has a
/// parent. The branch at hand is the one that the queue has there; its node and its parent are
/// those of the tree.
pub proof fn law_at_hand(state: State, k: int)
    ensures
        state.is_node(k) <==> state.tree.nodes.contains_key(state.queue[k]),
        state.is_child(k) <==> state.tree.nodes.contains_key(state.queue[k])
            && state.tree.nodes[state.queue[k]].parent is Some,
        state.branch() == state.queue[state.at],
        state.node() == state.tree.nodes[state.queue[state.at]],
        state.is_child(state.at) ==> state.tree.nodes[state.queue[state.at]].parent == Some(
            state.parent(),
        ),
{
}

/// Fork points are read from the file as they stand there; without a file there are none.
pub proof fn law_points_in(content: Option<String>, branch: Seq<char>)
    ensures
        content is None ==> !state::points_in(content).contains_key(branch),
        content matches Some(found) ==> state::points_in(content) == fork_points::stated_points(
            found@,
        ),
{
}

/// What is done at each stage, and to what: the stages that look at or rebase a branch are about the
/// one at hand in the queue, those that push about the one at hand among the branches to push, and
/// those that remove about the integrated worktree at hand.
pub proof fn law_actions(state: State, action: Action)
    requires
        state.valid(),
        state.calls_for(action),
    ensures
        ({
            let node = state.tree.nodes[state.queue[state.at]];
            let site = state.integrated[state.at];
            match state.stage {
                Stage::Fetch => action is Fetch,
                Stage::Survey => action is Survey,
                Stage::Locate => action is CurrentBranch,
                Stage::MakeDataDir => action is MakeDataDir,
                Stage::WriteStack => action is WriteStackFile,
                Stage::PreviewPoints | Stage::ReadPoints => action is ReadForkPoints,
                Stage::SavePoints | Stage::SaveAfterConflict => action is WriteForkPoints,
                Stage::Finished => action is Finish,
                Stage::Failed => action is Fail,
                Stage::CheckStatus => action matches Action::Status { path } && path == node.path,
                Stage::CheckRebase | Stage::AskConflict => action matches Action::RebaseState {
                    path,
                } && path == node.path,
                Stage::PreviewBase | Stage::FindBase => action matches Action::MergeBase {
                    parent,
                    branch,
                } && node.parent == Some(parent@) && branch@ == state.queue[state.at],
                Stage::PreviewTip | Stage::FindTip => action matches Action::Tip { branch }
                    && node.parent == Some(branch@),
                Stage::Rebase => action matches Action::Rebase { path, parent, branch, .. } && path
                    == node.path && node.parent == Some(parent@) && branch@
                    == state.queue[state.at],
                Stage::AskUpstream => action matches Action::Upstream { branch } && branch@
                    == state.queue[state.at],
                Stage::AskRemote => action matches Action::PushRemote { branch } && branch@
                    == state.pushable[state.at],
                Stage::Push => action matches Action::Push { remote, branch } && remote@
                    == state.remote && branch@ == state.pushable[state.at],
                Stage::PruneUpstream => action matches Action::Upstream { branch } && branch@
                    == site.branch,
                Stage::PruneRemote => action matches Action::PushRemote { branch } && branch@
                    == site.branch,
                Stage::RemoveWorktree => action matches Action::RemoveWorktree { path, force }
                    && path == site.path && force == state.opts.force,
                Stage::DeleteBranch => action matches Action::DeleteBranch { branch } && branch@
                    == site.branch,
                Stage::DeleteRemote => action matches Action::DeleteRemoteBranch { remote, branch }
                    && remote@ == state.remote && branch@ == site.branch,
            }
        }),
{
}

} // verus!
