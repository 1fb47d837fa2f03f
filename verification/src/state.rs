//! What a sync has got to, and how it goes on.

use std::path::PathBuf;

use vstd::prelude::*;

use crate::branch_map::BranchMap;
use crate::failure;
use crate::failure::{Failure, Fault};
use crate::fork_points;
use crate::ground::Site;
use crate::notice::Message;
use crate::options::SyncOptions;
use crate::plan;
use crate::stack_file;
use crate::text;
use crate::tree;
use crate::tree::{DependencyTree, Node, Tree};

verus! {

/// What is to be done next.
#[derive(Debug)]
pub enum Action {
    /// Fetch from the remote.
    Fetch,
    /// Survey the repository.
    Survey,
    /// Find out which branch is checked out in the current worktree.
    CurrentBranch,
    /// Ask git for tracked changes in the worktree at `path`.
    Status { path: PathBuf },
    /// Find out whether a rebase is in progress in the worktree at `path`.
    RebaseState { path: PathBuf },
    /// Make the directory for the persisted files.
    MakeDataDir,
    /// Write the stack file.
    WriteStackFile { content: String },
    /// Read the fork-points file.
    ReadForkPoints,
    /// Write the fork-points file.
    WriteForkPoints { content: String },
    /// Find the merge base of two branches.
    MergeBase { parent: String, branch: String },
    /// Find the tip of `branch`.
    Tip { branch: String },
    /// In the worktree at `path`, rebase what `branch` has since `base` onto `parent`.
    Rebase { path: PathBuf, parent: String, base: String, branch: String },
    /// Find out whether `branch` has an upstream.
    Upstream { branch: String },
    /// Find out which remote `branch` is pushed to.
    PushRemote { branch: String },
    /// Push `branch`, unless the remote has moved on.
    Push { remote: String, branch: String },
    /// Remove the worktree at `path`; with `force` even if it is dirty.
    RemoveWorktree { path: PathBuf, force: bool },
    /// Delete the local `branch`.
    DeleteBranch { branch: String },
    /// Delete `branch` on `remote`.
    DeleteRemoteBranch { remote: String, branch: String },
    /// Nothing: all is done.
    Finish,
    /// Nothing: the sync has failed.
    Fail { failure: Failure },
}

/// What came of an action.
#[derive(Debug)]
pub enum Event {
    /// It was done.
    Done,
    /// It could not be done.
    Failed(Failure),
    /// The survey is complete.
    Surveyed { tree: DependencyTree, integrated: BranchMap<PathBuf> },
    /// The name asked for, if there is one.
    Name(Option<String>),
    /// What git printed.
    Output(String),
    /// Yes or no.
    Flag(bool),
    /// What a file holds, if it can be read.
    Contents(Option<String>),
}

/// Where a sync stands.
#[derive(Clone, Copy, Debug, PartialEq, Eq, Structural)]
pub enum Stage {
    Fetch,
    Survey,
    Locate,
    /// For the plan: fork points, then merge base and tip of the parent for each branch.
    PreviewPoints,
    PreviewBase,
    PreviewTip,
    /// Before anything is changed: no tracked changes, no rebase in progress.
    CheckStatus,
    CheckRebase,
    MakeDataDir,
    WriteStack,
    ReadPoints,
    /// For each branch: merge base, tip of the parent, rebase.
    FindBase,
    FindTip,
    Rebase,
    /// After a rebase failed: is there a conflict?
    AskConflict,
    SaveAfterConflict,
    /// Which branches have an upstream; then for each of them the remote, and push.
    AskUpstream,
    AskRemote,
    Push,
    /// For each integrated branch.
    PruneUpstream,
    PruneRemote,
    RemoveWorktree,
    DeleteBranch,
    DeleteRemote,
    SavePoints,
    Finished,
    Failed,
}

impl Stage {
    /// Whether the action at this stage changes a branch, a worktree or a persisted file.
    pub open spec fn changes(self) -> bool {
        match self {
            Stage::MakeDataDir
            | Stage::WriteStack
            | Stage::Rebase
            | Stage::SaveAfterConflict
            | Stage::Push
            | Stage::RemoveWorktree
            | Stage::DeleteBranch
            | Stage::DeleteRemote
            | Stage::SavePoints => true,
            _ => false,
        }
    }

    /// Whether branches are being rebased.
    pub open spec fn rebases(self) -> bool {
        match self {
            Stage::FindBase
            | Stage::FindTip
            | Stage::Rebase
            | Stage::AskConflict
            | Stage::SaveAfterConflict => true,
            _ => false,
        }
    }

    /// Whether the plan is being made.
    pub open spec fn previews(self) -> bool {
        match self {
            Stage::PreviewPoints | Stage::PreviewBase | Stage::PreviewTip => true,
            _ => false,
        }
    }

    /// Whether branches are being pushed.
    pub open spec fn pushes(self) -> bool {
        match self {
            Stage::AskUpstream | Stage::AskRemote | Stage::Push => true,
            _ => false,
        }
    }

    /// Whether integrated worktrees are being removed.
    pub open spec fn prunes(self) -> bool {
        match self {
            Stage::PruneUpstream
            | Stage::PruneRemote
            | Stage::RemoveWorktree
            | Stage::DeleteBranch
            | Stage::DeleteRemote => true,
            _ => false,
        }
    }

    /// Whether the branches to sync are not yet known.
    pub open spec fn begins(self) -> bool {
        match self {
            Stage::Fetch | Stage::Survey | Stage::Locate => true,
            _ => false,
        }
    }

    /// Whether nothing has been rebased yet.
    pub open spec fn prepares(self) -> bool {
        self.begins() || self.previews() || match self {
            Stage::CheckStatus
            | Stage::CheckRebase
            | Stage::MakeDataDir
            | Stage::WriteStack
            | Stage::ReadPoints => true,
            _ => false,
        }
    }

    /// Whether all rebases are over.
    pub open spec fn concludes(self) -> bool {
        self.pushes() || self.prunes() || self is SavePoints
    }

    /// Whether nothing is left to do.
    pub open spec fn ends(self) -> bool {
        self is Finished || self is Failed
    }
}

/// What a sync has got to.
#[verifier::ext_equal]
pub struct State {
    pub opts: SyncOptions,
    pub tree: Tree,
    /// The integrated branches and their worktrees.
    pub integrated: Seq<Site>,
    /// The branches to sync.
    pub queue: Seq<Seq<char>>,
    pub stage: Stage,
    /// Which branch is at hand.
    pub at: int,
    /// The branches with tracked changes.
    pub dirty: Seq<Seq<char>>,
    /// The fork points.
    pub points: Map<Seq<char>, Seq<char>>,
    /// For the plan: the branches that would be rebased, and their bases.
    pub bases: Map<Seq<char>, Seq<char>>,
    pub merge_base: Seq<char>,
    /// The tip of the parent.
    pub tip: Seq<char>,
    pub rebased: nat,
    pub skipped: nat,
    /// The branches with an upstream.
    pub pushable: Seq<Seq<char>>,
    pub has_upstream: bool,
    pub remote: Seq<char>,
    /// What went wrong.
    pub fault: Fault,
}

/// A state and what is told to the user on the way to it.
#[verifier::ext_equal]
pub struct Turn {
    pub state: State,
    pub messages: Seq<Message>,
}

impl Turn {
    /// The same turn, with `message` told before all else.
    pub open spec fn telling_first(self, message: Message) -> Turn {
        Turn { state: self.state, messages: seq![message] + self.messages }
    }
}

/// One message for each line.
pub open spec fn line_messages(lines: Seq<Seq<char>>) -> Seq<Message> {
    Seq::new(lines.len(), |i: int| Message::line(lines[i]))
}

/// The integrated branches in the order in which they are removed.
pub open spec fn listing(integrated: BranchMap<PathBuf>) -> Seq<Site> {
    Seq::new(
        integrated.names().len(),
        |i: int|
            Site { branch: integrated.names()[i], path: integrated@[integrated.names()[i]] },
    )
}

/// The fork points that a file states; none if it cannot be read.
pub open spec fn points_in(content: Option<String>) -> Map<Seq<char>, Seq<char>> {
    match content {
        Some(found) => fork_points::stated_points(found@),
        None => Map::empty(),
    }
}

impl State {
    /// The branch at hand.
    pub open spec fn branch(self) -> Seq<char> {
        self.queue[self.at]
    }

    /// Its node.
    pub open spec fn node(self) -> Node {
        self.tree.nodes[self.branch()]
    }

    /// Its parent.
    pub open spec fn parent(self) -> Seq<char> {
        self.node().parent->0
    }

    /// Whether the tree has a node for branch `k`.
    pub open spec fn is_node(self, k: int) -> bool {
        self.tree.nodes.contains_key(self.queue[k])
    }

    /// Whether branch `k` has a parent.
    pub open spec fn is_child(self, k: int) -> bool {
        self.is_node(k) && self.tree.nodes[self.queue[k]].parent is Some
    }

    /// The first branch from `k` on that has a node; the end of the queue if there is none.
    pub open spec fn next_node(self, k: int) -> int
        decreases self.queue.len() - k,
    {
        if k >= self.queue.len() {
            self.queue.len() as int
        } else if self.is_node(k) {
            k
        } else {
            self.next_node(k + 1)
        }
    }

    /// The first branch from `k` on that has a parent; the end of the queue if there is none.
    pub open spec fn next_child(self, k: int) -> int
        decreases self.queue.len() - k,
    {
        if k >= self.queue.len() {
            self.queue.len() as int
        } else if self.is_child(k) {
            k
        } else {
            self.next_child(k + 1)
        }
    }

    /// Where the branch at hand is cut off its old parent: at the integrated parent that it was
    /// taken from, else at the stored fork point, else at the merge base.
    pub open spec fn base(self) -> Seq<char> {
        match self.node().original_parent {
            Some(original) => original,
            None => if self.points.contains_key(self.branch()) {
                self.points[self.branch()]
            } else {
                self.merge_base
            },
        }
    }

    /// Nothing is told.
    pub open spec fn quietly(self) -> Turn {
        Turn { state: self, messages: seq![] }
    }

    /// The sync fails.
    pub open spec fn fail(self, fault: Fault) -> Turn {
        State { stage: Stage::Failed, fault, ..self }.quietly()
    }

    /// A sync begins.
    pub open spec fn start(opts: SyncOptions) -> Turn {
        let state = State {
            opts,
            tree: Tree { root: seq![], nodes: Map::empty() },
            integrated: seq![],
            queue: seq![],
            stage: Stage::Survey,
            at: 0,
            dirty: seq![],
            points: Map::empty(),
            bases: Map::empty(),
            merge_base: seq![],
            tip: seq![],
            rebased: 0,
            skipped: 0,
            pushable: seq![],
            has_upstream: false,
            remote: seq![],
            fault: failure::plain_fault(seq![]),
        };
        if opts.fetch {
            State { stage: Stage::Fetch, ..state }.quietly().telling_first(Message::fetching())
        } else {
            state.quietly()
        }
    }

    /// The branches to sync are chosen: all of them, or the stack that holds the current one.
    pub open spec fn select(self, current: Option<Seq<char>>) -> Turn {
        if self.opts.all {
            let queue = self.tree.sync_order();
            if queue.len() == 0 {
                self.nothing_to_sync().telling_first(Message::all_up_to_date())
            } else {
                self.begin(queue)
            }
        } else {
            match current {
                None => self.fail(failure::no_current()),
                Some(branch) => {
                    let queue = self.tree.stack_containing(branch);
                    if queue.len() == 0 {
                        self.nothing_to_sync().telling_first(Message::no_stack(branch))
                    } else {
                        self.begin(queue)
                    }
                },
            }
        }
    }

    /// Nothing is rebased. Both files are still written, and integrated worktrees removed.
    pub open spec fn nothing_to_sync(self) -> Turn {
        let stage = if self.opts.dry_run {
            Stage::Finished
        } else {
            Stage::MakeDataDir
        };
        State { stage, ..self }.quietly()
    }

    /// The branches of `queue` are to be synced.
    pub open spec fn begin(self, queue: Seq<Seq<char>>) -> Turn {
        let state = State { queue, ..self };
        if !self.opts.dry_run {
            state.check_status(0)
        } else if self.opts.verbose {
            State { stage: Stage::PreviewPoints, ..state }.quietly()
        } else {
            state.show_plan()
        }
    }

    /// The plan is shown, and that is all.
    pub open spec fn show_plan(self) -> Turn {
        Turn {
            state: State { stage: Stage::Finished, ..self },
            messages: line_messages(plan::plan(self.tree, self.queue, self.bases)),
        }
    }

    /// The plan goes on with branch `k`.
    pub open spec fn preview(self, k: int) -> Turn {
        let next = self.next_child(k);
        if next < self.queue.len() {
            State { stage: Stage::PreviewBase, at: next, ..self }.quietly()
        } else {
            self.show_plan()
        }
    }

    /// Whether the branch at hand would be rebased: its parent would be, or has moved on.
    pub open spec fn would_rebase(self) -> bool {
        self.bases.contains_key(self.parent()) || self.merge_base != self.tip
    }

    /// Tracked changes are looked for from branch `k` on.
    pub open spec fn check_status(self, k: int) -> Turn {
        let next = self.next_node(k);
        if next < self.queue.len() {
            State { stage: Stage::CheckStatus, at: next, ..self }.quietly()
        } else if self.dirty.len() > 0 {
            self.fail(failure::uncommitted(self.dirty))
        } else {
            self.check_rebase(0)
        }
    }

    /// Rebases in progress are looked for from branch `k` on.
    pub open spec fn check_rebase(self, k: int) -> Turn {
        let next = self.next_node(k);
        if next < self.queue.len() {
            State { stage: Stage::CheckRebase, at: next, ..self }.quietly()
        } else {
            State { stage: Stage::MakeDataDir, ..self }.quietly()
        }
    }

    /// Branches are rebased from branch `k` on.
    pub open spec fn rebase(self, k: int) -> Turn {
        let next = self.next_child(k);
        if next < self.queue.len() {
            State { stage: Stage::FindBase, at: next, ..self }.quietly()
        } else if self.rebased > 0 {
            self.push().telling_first(Message::summary(self.rebased, self.skipped))
        } else if self.skipped > 0 {
            self.push().telling_first(Message::all_up_to_date())
        } else {
            self.push()
        }
    }

    /// The branch at hand stands on the tip of its parent now.
    pub open spec fn settle(self) -> State {
        State { points: self.points.insert(self.branch(), self.tip), ..self }
    }

    /// The branch at hand is about to be rebased.
    pub open spec fn start_rebase(self) -> Turn {
        let told = match self.node().original_parent {
            Some(original) => Message::moving(self.branch(), self.parent(), original),
            None => Message::rebasing(self.branch(), self.parent()),
        };
        let shown = if self.opts.verbose {
            seq![Message::line(plan::command(self.parent(), self.base(), self.branch()))]
        } else {
            seq![]
        };
        Turn { state: State { stage: Stage::Rebase, ..self }, messages: seq![told] + shown }
    }

    /// Branches are pushed, if that was asked for.
    pub open spec fn push(self) -> Turn {
        if self.opts.push {
            self.ask_upstream(0)
        } else {
            self.prune()
        }
    }

    /// Upstreams are looked for from branch `k` on.
    pub open spec fn ask_upstream(self, k: int) -> Turn {
        if k < self.queue.len() {
            State { stage: Stage::AskUpstream, at: k, ..self }.quietly()
        } else if self.pushable.len() > 0 {
            self.push_from(0).telling_first(Message::blank())
        } else {
            self.prune()
        }
    }

    /// Branches with an upstream are pushed from the one at `k` on.
    pub open spec fn push_from(self, k: int) -> Turn {
        if k < self.pushable.len() {
            State { stage: Stage::AskRemote, at: k, ..self }.quietly()
        } else {
            self.prune()
        }
    }

    /// Integrated worktrees are removed, if that was asked for.
    pub open spec fn prune(self) -> Turn {
        if self.opts.prune && self.integrated.len() > 0 {
            self.prune_from(0).telling_first(Message::blank())
        } else {
            self.close()
        }
    }

    /// Integrated worktrees are removed from the one at `k` on.
    pub open spec fn prune_from(self, k: int) -> Turn {
        if k < self.integrated.len() {
            State { stage: Stage::PruneUpstream, at: k, ..self }.quietly().telling_first(
                Message::removing(self.integrated[k].branch),
            )
        } else {
            self.close()
        }
    }

    /// The integrated worktree at hand is gone.
    pub open spec fn pruned(self) -> Turn {
        self.prune_from(self.at + 1).telling_first(Message::removed(self.integrated[self.at].branch))
    }

    /// The fork points are saved.
    pub open spec fn close(self) -> Turn {
        State { stage: Stage::SavePoints, ..self }.quietly()
    }

    /// Whether `event` can come of the action at hand.
    pub open spec fn accepts(self, event: Event) -> bool {
        match self.stage {
            Stage::Fetch
            | Stage::MakeDataDir
            | Stage::WriteStack
            | Stage::Rebase
            | Stage::SaveAfterConflict
            | Stage::Push
            | Stage::RemoveWorktree
            | Stage::DeleteBranch
            | Stage::DeleteRemote
            | Stage::SavePoints => event is Done || event is Failed,
            Stage::Survey => event is Surveyed || event is Failed,
            Stage::Locate | Stage::PreviewBase | Stage::FindBase => event is Name
                || event is Failed,
            Stage::PreviewTip | Stage::CheckStatus | Stage::FindTip => event is Output
                || event is Failed,
            Stage::CheckRebase | Stage::AskConflict => event is Flag || event is Failed,
            Stage::PreviewPoints | Stage::ReadPoints => event is Contents,
            Stage::AskUpstream | Stage::PruneUpstream => event is Flag,
            Stage::AskRemote | Stage::PruneRemote => event is Name,
            Stage::Finished | Stage::Failed => false,
        }
    }

    /// How the sync goes on after an action that failed.
    pub open spec fn after_failure(self, fault: Fault) -> Turn {
        match self.stage {
            Stage::Fetch => self.fail(fault.under("git fetch failed"@)),
            Stage::MakeDataDir => self.fail(fault.under("Failed to create .git/wt directory"@)),
            Stage::WriteStack => self.fail(fault.under("Failed to write stack file"@)),
            Stage::SaveAfterConflict | Stage::SavePoints => self.fail(
                fault.under("Failed to write fork-points file"@),
            ),
            Stage::Rebase => State { stage: Stage::AskConflict, fault, ..self }.quietly(),
            Stage::Push => self.push_from(self.at + 1).telling_first(
                Message::push_failed(self.pushable[self.at], fault.message),
            ),
            Stage::RemoveWorktree => self.prune_from(self.at + 1).telling_first(
                Message::remove_hint(self.integrated[self.at].path),
            ).telling_first(
                Message::remove_failed(self.integrated[self.at].branch, fault.message),
            ),
            Stage::DeleteBranch => self.branch_deleted().telling_first(
                Message::delete_failed(self.integrated[self.at].branch, fault.message),
            ),
            Stage::DeleteRemote => self.pruned().telling_first(
                Message::remote_delete_failed(
                    self.integrated[self.at].branch,
                    fault.message,
                ),
            ),
            _ => self.fail(fault),
        }
    }

    /// The local branch is gone: now the remote one, if there is one.
    pub open spec fn branch_deleted(self) -> Turn {
        if self.has_upstream {
            State { stage: Stage::DeleteRemote, ..self }.quietly()
        } else {
            self.pruned()
        }
    }

    /// How the sync goes on after an action that was done.
    pub open spec fn after_done(self) -> Turn {
        match self.stage {
            Stage::Fetch => State { stage: Stage::Survey, ..self }.quietly().telling_first(
                Message::fetched(),
            ),
            Stage::MakeDataDir => State { stage: Stage::WriteStack, ..self }.quietly(),
            Stage::WriteStack => State { stage: Stage::ReadPoints, ..self }.quietly(),
            Stage::Rebase => State { rebased: self.rebased + 1, ..self.settle() }.rebase(
                self.at + 1,
            ).telling_first(Message::rebased(self.branch(), self.parent())),
            Stage::SaveAfterConflict => self.fail(failure::conflict()),
            Stage::Push => self.push_from(self.at + 1).telling_first(
                Message::pushed(self.pushable[self.at]),
            ),
            Stage::RemoveWorktree => State { stage: Stage::DeleteBranch, ..self }.quietly(),
            Stage::DeleteBranch => self.branch_deleted(),
            Stage::DeleteRemote => self.pruned(),
            _ => State { stage: Stage::Finished, ..self }.quietly(),
        }
    }

    /// How the sync goes on with a name, if there is one.
    pub open spec fn after_name(self, name: Option<Seq<char>>) -> Turn {
        match self.stage {
            Stage::Locate => self.select(name),
            Stage::PreviewBase => match name {
                Some(merge_base) => State {
                    stage: Stage::PreviewTip,
                    merge_base,
                    ..self
                }.quietly(),
                None => self.preview(self.at + 1),
            },
            Stage::FindBase => match name {
                Some(merge_base) => State { stage: Stage::FindTip, merge_base, ..self }.quietly(),
                None => self.rebase(self.at + 1),
            },
            Stage::AskRemote => {
                let remote = remote_or_origin(name);
                State { stage: Stage::Push, remote, ..self }.quietly().telling_first(
                    Message::pushing(self.pushable[self.at], remote),
                )
            },
            _ => State {
                stage: Stage::RemoveWorktree,
                remote: remote_or_origin(name),
                ..self
            }.quietly(),
        }
    }

    /// How the sync goes on with what git printed.
    pub open spec fn after_output(self, output: Seq<char>) -> Turn {
        let trimmed = text::trim(output);
        match self.stage {
            Stage::PreviewTip => {
                let state = State { tip: trimmed, ..self };
                if state.would_rebase() {
                    State {
                        bases: state.bases.insert(state.branch(), state.base()),
                        ..state
                    }.preview(state.at + 1)
                } else {
                    state.preview(state.at + 1)
                }
            },
            Stage::CheckStatus => if trimmed.len() == 0 {
                self.check_status(self.at + 1)
            } else {
                State { dirty: self.dirty.push(self.branch()), ..self }.check_status(self.at + 1)
            },
            _ => {
                let state = State { tip: trimmed, ..self };
                if state.merge_base == state.tip {
                    State { skipped: state.skipped + 1, ..state.settle() }.rebase(
                        state.at + 1,
                    ).telling_first(Message::up_to_date(state.branch(), state.parent()))
                } else {
                    state.start_rebase()
                }
            },
        }
    }

    /// How the sync goes on with a yes or a no.
    pub open spec fn after_flag(self, yes: bool) -> Turn {
        match self.stage {
            Stage::CheckRebase => if yes {
                self.fail(failure::rebase_in_progress(self.branch()))
            } else {
                self.check_rebase(self.at + 1)
            },
            Stage::AskConflict => if yes {
                State { stage: Stage::SaveAfterConflict, ..self }.quietly().telling_first(
                    Message::conflict_hint(self.node().path),
                ).telling_first(Message::conflict(self.branch(), self.parent()))
            } else {
                self.fail(self.fault.under(failure::rebase_failed(self.branch(), self.parent())))
            },
            Stage::AskUpstream => if yes {
                State { pushable: self.pushable.push(self.branch()), ..self }.ask_upstream(
                    self.at + 1,
                )
            } else {
                self.ask_upstream(self.at + 1)
            },
            _ => State { stage: Stage::PruneRemote, has_upstream: yes, ..self }.quietly(),
        }
    }

    /// How the sync goes on with the fork points of a file.
    pub open spec fn after_points(self, points: Map<Seq<char>, Seq<char>>) -> Turn {
        match self.stage {
            Stage::PreviewPoints => State { points, ..self }.preview(0),
            _ => State { points, ..self }.rebase(0),
        }
    }

    /// How the sync goes on after `event`.
    pub open spec fn after(self, event: Event) -> Turn {
        match event {
            Event::Done => self.after_done(),
            Event::Failed(failure) => self.after_failure(failure@),
            Event::Surveyed { tree, integrated } => State {
                stage: Stage::Locate,
                tree: tree@,
                integrated: listing(integrated),
                ..self
            }.quietly(),
            Event::Name(name) => self.after_name(tree::optional_text(name)),
            Event::Output(output) => self.after_output(output@),
            Event::Flag(yes) => self.after_flag(yes),
            Event::Contents(content) => self.after_points(points_in(content)),
        }
    }

    /// Whether `action` is what is to be done.
    pub open spec fn calls_for(self, action: Action) -> bool {
        let site = self.integrated[self.at];
        match self.stage {
            Stage::Fetch => action is Fetch,
            Stage::Survey => action is Survey,
            Stage::Locate => action is CurrentBranch,
            Stage::PreviewPoints | Stage::ReadPoints => action is ReadForkPoints,
            Stage::PreviewBase | Stage::FindBase => action matches Action::MergeBase {
                parent,
                branch,
            } && parent@ == self.parent() && branch@ == self.branch(),
            Stage::PreviewTip | Stage::FindTip => action matches Action::Tip { branch } && branch@
                == self.parent(),
            Stage::CheckStatus => action matches Action::Status { path } && path
                == self.node().path,
            Stage::CheckRebase | Stage::AskConflict => action matches Action::RebaseState { path }
                && path == self.node().path,
            Stage::MakeDataDir => action is MakeDataDir,
            Stage::WriteStack => action matches Action::WriteStackFile { content } && content@
                == stack_file::stack_text(self.tree),
            Stage::Rebase => action matches Action::Rebase { path, parent, base, branch } && path
                == self.node().path && parent@ == self.parent() && base@ == self.base() && branch@
                == self.branch(),
            Stage::SaveAfterConflict | Stage::SavePoints => action matches Action::WriteForkPoints {
                content,
            } && fork_points::writes_points(content@, self.points),
            Stage::AskUpstream => action matches Action::Upstream { branch } && branch@
                == self.branch(),
            Stage::AskRemote => action matches Action::PushRemote { branch } && branch@
                == self.pushable[self.at],
            Stage::Push => action matches Action::Push { remote, branch } && remote@ == self.remote
                && branch@ == self.pushable[self.at],
            Stage::PruneUpstream => action matches Action::Upstream { branch } && branch@
                == site.branch,
            Stage::PruneRemote => action matches Action::PushRemote { branch } && branch@
                == site.branch,
            Stage::RemoveWorktree => action matches Action::RemoveWorktree { path, force } && path
                == site.path && force == self.opts.force,
            Stage::DeleteBranch => action matches Action::DeleteBranch { branch } && branch@
                == site.branch,
            Stage::DeleteRemote => action matches Action::DeleteRemoteBranch { remote, branch }
                && remote@ == self.remote && branch@ == site.branch,
            Stage::Finished => action is Finish,
            Stage::Failed => action matches Action::Fail { failure } && failure@ == self.fault,
        }
    }
}

impl State {
    /// Whether the state is one that a sync can get to.
    pub open spec fn valid(self) -> bool {
        &&& 0 <= self.at
        &&& match self.stage {
            Stage::CheckStatus | Stage::CheckRebase => self.at < self.queue.len() && self.is_node(
                self.at,
            ),
            Stage::PreviewBase
            | Stage::PreviewTip
            | Stage::FindBase
            | Stage::FindTip
            | Stage::Rebase
            | Stage::AskConflict
            | Stage::SaveAfterConflict => self.at < self.queue.len() && self.is_child(self.at),
            Stage::AskUpstream => self.at < self.queue.len() && self.opts.push,
            Stage::AskRemote | Stage::Push => self.at < self.pushable.len() && self.opts.push,
            _ => self.stage.prunes() ==> self.at < self.integrated.len() && self.opts.prune,
        }
        &&& self.stage.begins() ==> self.queue.len() == 0 && self.pushable.len() == 0
        &&& self.stage.rebases() ==> self.rebased + self.skipped <= self.at
        &&& self.stage.prepares() ==> self.rebased == 0 && self.skipped == 0
        &&& self.opts.dry_run ==> self.stage.begins() || self.stage.previews() || self.stage.ends()
        &&& self.stage.previews() ==> self.opts.dry_run && self.opts.verbose
        &&& self.stage is CheckStatus || self.stage is Failed || self.dirty.len() == 0
        &&& self.opts.verbose || self.bases == Map::<Seq<char>, Seq<char>>::empty()
    }
}

/// What comes next stands in the queue, at or behind where it was looked for; all in between has
/// no node.
pub proof fn lemma_next_node(state: State, k: int)
    requires
        0 <= k,
    ensures
        state.next_node(k) <= state.queue.len(),
        k <= state.queue.len() ==> k <= state.next_node(k),
        state.next_node(k) < state.queue.len() ==> k <= state.next_node(k) && state.is_node(
            state.next_node(k),
        ),
        forall|i: int| k <= i < state.next_node(k) ==> !#[trigger] state.is_node(i),
    decreases state.queue.len() - k,
{
    if k < state.queue.len() && !state.is_node(k) {
        lemma_next_node(state, k + 1);
    }
}

/// What comes next stands in the queue, at or behind where it was looked for; all in between has
/// no parent.
pub proof fn lemma_next_child(state: State, k: int)
    requires
        0 <= k,
    ensures
        state.next_child(k) <= state.queue.len(),
        k <= state.queue.len() ==> k <= state.next_child(k),
        state.next_child(k) < state.queue.len() ==> k <= state.next_child(k) && state.is_child(
            state.next_child(k),
        ),
        forall|i: int| k <= i < state.next_child(k) ==> !#[trigger] state.is_child(i),
    decreases state.queue.len() - k,
{
    if k < state.queue.len() && !state.is_child(k) {
        lemma_next_child(state, k + 1);
    }
}

/// A sync that begins is in a valid state.
pub proof fn law_valid_start(opts: SyncOptions)
    ensures
        State::start(opts).state.valid(),
{
}

/// Every event that the action at hand can bring takes a valid state to a valid state.
#[verifier::spinoff_prover]
#[verifier::rlimit(60)]
pub proof fn law_stays_valid(state: State, event: Event)
    requires
        state.valid(),
        state.accepts(event),
    ensures
        state.after(event).state.valid(),
{
    match event {
        Event::Done => lemma_done_valid(state),
        Event::Failed(failure) => lemma_failure_valid(state, failure@),
        Event::Surveyed { tree, integrated } => lemma_surveyed_valid(
            state,
            tree@,
            listing(integrated),
        ),
        Event::Name(name) => lemma_name_valid(state, tree::optional_text(name)),
        Event::Output(output) => lemma_output_valid(state, output@),
        Event::Flag(yes) => lemma_flag_valid(state, yes),
        Event::Contents(content) => lemma_points_valid(state, points_in(content)),
    }
}

proof fn lemma_surveyed_valid(state: State, tree: Tree, integrated: Seq<Site>)
    requires
        state.valid(),
        state.stage is Survey,
    ensures
        (State { stage: Stage::Locate, tree, integrated, ..state }).valid(),
{
}

proof fn lemma_points_valid(state: State, points: Map<Seq<char>, Seq<char>>)
    requires
        state.valid(),
        state.stage is PreviewPoints || state.stage is ReadPoints,
    ensures
        state.after_points(points).state.valid(),
{
    if state.stage is PreviewPoints {
        lemma_next_child(State { points, ..state }, 0);
    } else {
        lemma_rebase_valid(State { points, ..state }, 0);
    }
}

/// Whether only what follows the checks is left.
spec fn calm(state: State) -> bool {
    &&& 0 <= state.at
    &&& state.dirty.len() == 0
    &&& !state.opts.dry_run
    &&& state.opts.verbose || state.bases == Map::<Seq<char>, Seq<char>>::empty()
}

proof fn lemma_prune_valid(state: State, k: int)
    requires
        calm(state),
        0 <= k,
    ensures
        state.prune().state.valid(),
        state.opts.prune ==> state.prune_from(k).state.valid(),
{
}

proof fn lemma_push_valid(state: State, k: int)
    requires
        calm(state),
        0 <= k,
    ensures
        state.push().state.valid(),
        state.opts.push ==> state.push_from(k).state.valid(),
        state.opts.push ==> state.ask_upstream(k).state.valid(),
{
    lemma_prune_valid(state, 0);
}

proof fn lemma_rebase_valid(state: State, k: int)
    requires
        calm(state),
        0 <= k,
        state.rebased + state.skipped <= k,
    ensures
        state.rebase(k).state.valid(),
{
    lemma_next_child(state, k);
    lemma_push_valid(state, 0);
}

proof fn lemma_done_valid(state: State)
    requires
        state.valid(),
        state.accepts(Event::Done),
    ensures
        state.after_done().state.valid(),
{
    match state.stage {
        Stage::Rebase => {
            lemma_rebase_valid(
                State { rebased: state.rebased + 1, ..state.settle() },
                state.at + 1,
            );
        },
        Stage::Push => lemma_push_valid(state, state.at + 1),
        Stage::DeleteBranch | Stage::DeleteRemote => lemma_prune_valid(state, state.at + 1),
        _ => {},
    }
}

proof fn lemma_failure_valid(state: State, fault: Fault)
    requires
        state.valid(),
        !state.stage.ends(),
    ensures
        state.after_failure(fault).state.valid(),
{
    match state.stage {
        Stage::Push => lemma_push_valid(state, state.at + 1),
        Stage::RemoveWorktree | Stage::DeleteBranch | Stage::DeleteRemote => lemma_prune_valid(
            state,
            state.at + 1,
        ),
        _ => {},
    }
}

proof fn lemma_name_valid(state: State, name: Option<Seq<char>>)
    requires
        state.valid(),
        match state.stage {
            Stage::Locate
            | Stage::PreviewBase
            | Stage::FindBase
            | Stage::AskRemote
            | Stage::PruneRemote => true,
            _ => false,
        },
    ensures
        state.after_name(name).state.valid(),
{
    match state.stage {
        Stage::Locate => lemma_select_valid(state, name),
        Stage::PreviewBase => lemma_next_child(state, state.at + 1),
        Stage::FindBase => lemma_rebase_valid(state, state.at + 1),
        _ => {},
    }
}

proof fn lemma_flag_valid(state: State, yes: bool)
    requires
        state.valid(),
        match state.stage {
            Stage::CheckRebase | Stage::AskConflict | Stage::AskUpstream | Stage::PruneUpstream => true,
            _ => false,
        },
    ensures
        state.after_flag(yes).state.valid(),
{
    match state.stage {
        Stage::CheckRebase => lemma_next_node(state, state.at + 1),
        Stage::AskUpstream => {
            lemma_push_valid(state, state.at + 1);
            lemma_push_valid(
                State { pushable: state.pushable.push(state.branch()), ..state },
                state.at + 1,
            );
        },
        _ => {},
    }
}

proof fn lemma_check_valid(state: State, k: int)
    requires
        0 <= k,
        0 <= state.at,
        !state.opts.dry_run,
        state.rebased == 0 && state.skipped == 0,
        state.opts.verbose || state.bases == Map::<Seq<char>, Seq<char>>::empty(),
    ensures
        state.check_status(k).state.valid(),
{
    lemma_next_node(state, k);
    lemma_next_node(state, 0);
}

proof fn lemma_select_valid(state: State, current: Option<Seq<char>>)
    requires
        state.valid(),
        state.stage is Locate,
    ensures
        state.select(current).state.valid(),
{
    assert forall|queue: Seq<Seq<char>>| #[trigger] state.begin(queue).state.valid() by {
        if !state.opts.dry_run {
            lemma_check_valid(State { queue, ..state }, 0);
        }
    }
}

proof fn lemma_output_valid(state: State, output: Seq<char>)
    requires
        state.valid(),
        state.stage is PreviewTip || state.stage is CheckStatus || state.stage is FindTip,
    ensures
        state.after_output(output).state.valid(),
{
    let told = State { tip: text::trim(output), ..state };
    let k = state.at + 1;
    match state.stage {
        Stage::PreviewTip => {
            lemma_next_child(told, k);
            lemma_next_child(
                State { bases: told.bases.insert(told.branch(), told.base()), ..told },
                k,
            );
        },
        Stage::CheckStatus => {
            lemma_check_valid(state, k);
            lemma_check_valid(State { dirty: state.dirty.push(state.branch()), ..state }, k);
        },
        _ => {
            if told.merge_base == told.tip {
                lemma_rebase_valid(State { skipped: told.skipped + 1, ..told.settle() }, k);
            }
        },
    }
}

/// The remote by that name; `origin` if there is none.
pub open spec fn remote_or_origin(name: Option<Seq<char>>) -> Seq<char> {
    match name {
        Some(remote) => remote,
        None => "origin"@,
    }
}

} // verus!
