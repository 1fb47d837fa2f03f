//! A sync, from the first action to the last.

use std::path::PathBuf;

use vstd::pervasive::unreached;
use vstd::prelude::*;

use crate::branch_map;
use crate::branch_map::BranchMap;
use crate::failure;
use crate::failure::Failure;
use crate::fork_points;
use crate::ground;
use crate::ground::Checkout;
use crate::notice;
use crate::notice::{Message, Notice};
use crate::options::SyncOptions;
use crate::plan;
use crate::stack_file;
use crate::state;
use crate::state::{Action, Event, Stage, State, Turn};
use crate::text;
use crate::tree;
use crate::tree::{DependencyTree, TreeNode};

verus! {

/// A sync. It says what is to be done, and is told what came of it.
#[derive(Debug)]
pub struct Session {
    opts: SyncOptions,
    tree: DependencyTree,
    integrated: Vec<Checkout>,
    queue: Vec<String>,
    stage: Stage,
    at: usize,
    dirty: Vec<String>,
    points: BranchMap<String>,
    bases: BranchMap<String>,
    merge_base: String,
    tip: String,
    rebased: usize,
    skipped: usize,
    pushable: Vec<String>,
    has_upstream: bool,
    remote: String,
    failure: Failure,
}

impl View for Session {
    type V = State;

    closed spec fn view(&self) -> State {
        State {
            opts: self.opts,
            tree: self.tree@,
            integrated: ground::sites(self.integrated@),
            queue: text::texts(self.queue@),
            stage: self.stage,
            at: self.at as int,
            dirty: text::texts(self.dirty@),
            points: branch_map::text_map(self.points@),
            bases: branch_map::text_map(self.bases@),
            merge_base: self.merge_base@,
            tip: self.tip@,
            rebased: self.rebased as nat,
            skipped: self.skipped as nat,
            pushable: text::texts(self.pushable@),
            has_upstream: self.has_upstream,
            remote: self.remote@,
            fault: self.failure@,
        }
    }
}

/// Whether `now` is the state that `turn` leads to, and what it tells was added to `before`.
spec fn takes(now: State, before: Seq<Notice>, after: Seq<Notice>, turn: Turn) -> bool {
    &&& now == turn.state
    &&& notice::messages(after) == notice::messages(before) + turn.messages
}

proof fn lemma_told(before: Seq<Notice>, one: Notice)
    ensures
        notice::messages(before.push(one)) == notice::messages(before).push(one@),
        notice::messages(before) + Seq::<Message>::empty() == notice::messages(before),
{
    assert(notice::messages(before.push(one)) =~= notice::messages(before).push(one@));
    assert(notice::messages(before) + Seq::<Message>::empty() =~= notice::messages(before));
}

/// What is told before a turn and on it is told on the turn with both.
proof fn lemma_told_first(before: Seq<Message>, first: Message, rest: Seq<Message>)
    ensures
        before.push(first) + rest == before + (seq![first] + rest),
{
    assert(before.push(first) + rest =~= before + (seq![first] + rest));
}

fn tell(notices: &mut Vec<Notice>, notice: Notice)
    ensures
        notice::messages(final(notices)@) == notice::messages(old(notices)@).push(notice@),
        forall|rest: Seq<Message>|
            #![trigger notice::messages(final(notices)@) + rest]
            notice::messages(final(notices)@) + rest == notice::messages(old(notices)@) + (seq![
                notice@,
            ] + rest),
{
    let ghost before = notices@;
    notices.push(notice);
    proof {
        lemma_told(before, notice);
        assert forall|rest: Seq<Message>|
            #![trigger notice::messages(notices@) + rest]
            notice::messages(notices@) + rest == notice::messages(before) + (seq![notice@]
                + rest) by {
            lemma_told_first(notice::messages(before), notice@, rest);
        }
    }
}

fn owned(names: &Vec<&str>) -> (copies: Vec<String>)
    ensures
        text::texts(copies@) == tree::slice_texts(names@),
{
    let mut copies: Vec<String> = Vec::new();
    let mut i: usize = 0;
    while i < names.len()
        invariant
            i <= names@.len(),
            text::texts(copies@) == tree::slice_texts(names@).take(i as int),
        decreases names@.len() - i,
    {
        let ghost before = text::texts(copies@);
        copies.push(names[i].to_owned());
        assert(text::texts(copies@) =~= before.push(names@[i as int]@));
        i = i + 1;
    }
    copies
}

fn list_integrated(integrated: &BranchMap<PathBuf>) -> (sites: Vec<Checkout>)
    ensures
        ground::sites(sites@) == state::listing(*integrated),
{
    let count: usize = integrated.len();
    let mut sites: Vec<Checkout> = Vec::new();
    let mut i: usize = 0;
    while i < count
        invariant
            i <= count,
            count == integrated.names().len(),
            ground::sites(sites@) == state::listing(*integrated).take(i as int),
        decreases count - i,
    {
        let ghost before = ground::sites(sites@);
        let site = Checkout {
            branch: integrated.name_at(i).clone(),
            path: integrated.value_at(i).clone(),
        };
        assert(site@ == state::listing(*integrated)[i as int]);
        sites.push(site);
        assert(ground::sites(sites@) =~= before.push(site@));
        i = i + 1;
    }
    sites
}

impl Session {
    /// A sync with the options `opts`, and what is told as it begins.
    pub fn new(opts: SyncOptions) -> (begun: (Session, Vec<Notice>))
        ensures
            begun.0@ == State::start(opts).state,
            begun.0@.valid(),
            notice::messages(begun.1@) == State::start(opts).messages,
    {
        let mut notices: Vec<Notice> = Vec::new();
        let mut session = Session {
            opts,
            tree: DependencyTree { root: String::new(), nodes: BranchMap::new() },
            integrated: Vec::new(),
            queue: Vec::new(),
            stage: Stage::Survey,
            at: 0,
            dirty: Vec::new(),
            points: BranchMap::new(),
            bases: BranchMap::new(),
            merge_base: String::new(),
            tip: String::new(),
            rebased: 0,
            skipped: 0,
            pushable: Vec::new(),
            has_upstream: false,
            remote: String::new(),
            failure: Failure::new(String::new()),
        };
        if opts.fetch {
            session.stage = Stage::Fetch;
            notices.push(Notice::fetching());
        }
        proof {
            assert(session@.tree.nodes =~= Map::empty());
            assert(session@.points =~= Map::empty());
            assert(session@.bases =~= Map::empty());
            assert(session@ =~= State::start(opts).state);
            assert(notice::messages(notices@) =~= State::start(opts).messages);
            state::law_valid_start(opts);
        }
        (session, notices)
    }

    fn close(&mut self, notices: &mut Vec<Notice>)
        ensures
            takes(final(self)@, old(notices)@, final(notices)@, old(self)@.close()),
    {
        self.stage = Stage::SavePoints;
    }

    fn prune_from(&mut self, k: usize, notices: &mut Vec<Notice>)
        ensures
            takes(final(self)@, old(notices)@, final(notices)@, old(self)@.prune_from(k as int)),
    {
        if k < self.integrated.len() {
            assert(self@.integrated[k as int].branch == self.integrated@[k as int].branch@);
            tell(notices, Notice::removing(self.integrated[k].branch.as_str()));
            self.stage = Stage::PruneUpstream;
            self.at = k;
            assert(notice::messages(notices@) =~= notice::messages(old(notices)@) + old(
                self,
            )@.prune_from(k as int).messages);
        } else {
            self.close(notices);
        }
    }

    fn prune(&mut self, notices: &mut Vec<Notice>)
        ensures
            takes(final(self)@, old(notices)@, final(notices)@, old(self)@.prune()),
    {
        if self.opts.prune && self.integrated.len() > 0 {
            tell(notices, Notice::blank());
            self.prune_from(0, notices);
        } else {
            self.close(notices);
        }
    }

    fn push_from(&mut self, k: usize, notices: &mut Vec<Notice>)
        ensures
            takes(final(self)@, old(notices)@, final(notices)@, old(self)@.push_from(k as int)),
    {
        if k < self.pushable.len() {
            self.stage = Stage::AskRemote;
            self.at = k;
        } else {
            self.prune(notices);
        }
    }

    fn ask_upstream(&mut self, k: usize, notices: &mut Vec<Notice>)
        ensures
            takes(final(self)@, old(notices)@, final(notices)@, old(self)@.ask_upstream(k as int)),
    {
        if k < self.queue.len() {
            self.stage = Stage::AskUpstream;
            self.at = k;
        } else if self.pushable.len() > 0 {
            tell(notices, Notice::blank());
            self.push_from(0, notices);
        } else {
            self.prune(notices);
        }
    }

    fn push(&mut self, notices: &mut Vec<Notice>)
        ensures
            takes(final(self)@, old(notices)@, final(notices)@, old(self)@.push()),
    {
        if self.opts.push {
            self.ask_upstream(0, notices);
        } else {
            self.prune(notices);
        }
    }

    /// The first branch from `k` on that has a node.
    fn next_node(&self, k: usize) -> (next: usize)
        requires
            k <= self@.queue.len(),
        ensures
            next == self@.next_node(k as int),
    {
        let mut i: usize = k;
        while i < self.queue.len() && !self.tree.nodes.contains_key(self.queue[i].as_str())
            invariant
                k <= i <= self@.queue.len(),
                self@.queue == text::texts(self.queue@),
                self@.next_node(i as int) == self@.next_node(k as int),
            decreases self@.queue.len() - i,
        {
            i = i + 1;
        }
        i
    }

    /// The first branch from `k` on that has a parent.
    fn next_child(&self, k: usize) -> (next: usize)
        requires
            k <= self@.queue.len(),
        ensures
            next == self@.next_child(k as int),
    {
        let mut i: usize = k;
        while i < self.queue.len()
            invariant
                k <= i <= self@.queue.len(),
                self@.queue == text::texts(self.queue@),
                self@.next_child(i as int) == self@.next_child(k as int),
            decreases self@.queue.len() - i,
        {
            if let Some(node) = self.tree.nodes.get(self.queue[i].as_str()) {
                assert(self@.tree.nodes[self@.queue[i as int]] == node@);
                if node.parent.is_some() {
                    return i;
                }
            }
            i = i + 1;
        }
        i
    }

    fn rebase(&mut self, k: usize, notices: &mut Vec<Notice>)
        requires
            k <= old(self)@.queue.len(),
        ensures
            takes(final(self)@, old(notices)@, final(notices)@, old(self)@.rebase(k as int)),
    {
        let next = self.next_child(k);
        if next < self.queue.len() {
            self.stage = Stage::FindBase;
            self.at = next;
        } else {
            proof {
                state::lemma_next_child(self@, k as int);
            }
            if self.rebased > 0 {
                tell(notices, Notice::summary(self.rebased, self.skipped));
            } else if self.skipped > 0 {
                tell(notices, Notice::all_up_to_date());
            }
            self.push(notices);
        }
    }

    fn fail(&mut self, failure: Failure)
        ensures
            final(self)@ == old(self)@.fail(failure@).state,
    {
        self.stage = Stage::Failed;
        self.failure = failure;
    }

    fn check_rebase(&mut self, k: usize, notices: &mut Vec<Notice>)
        requires
            k <= old(self)@.queue.len(),
        ensures
            takes(final(self)@, old(notices)@, final(notices)@, old(self)@.check_rebase(k as int)),
    {
        let next = self.next_node(k);
        if next < self.queue.len() {
            self.stage = Stage::CheckRebase;
            self.at = next;
        } else {
            self.stage = Stage::MakeDataDir;
        }
    }

    fn check_status(&mut self, k: usize, notices: &mut Vec<Notice>)
        requires
            k <= old(self)@.queue.len(),
        ensures
            takes(final(self)@, old(notices)@, final(notices)@, old(self)@.check_status(k as int)),
    {
        let next = self.next_node(k);
        if next < self.queue.len() {
            self.stage = Stage::CheckStatus;
            self.at = next;
        } else if self.dirty.len() > 0 {
            let failure = failure::uncommitted_changes(&self.dirty);
            self.fail(failure);
        } else {
            self.check_rebase(0, notices);
        }
    }

    fn show_plan(&mut self, notices: &mut Vec<Notice>)
        ensures
            takes(final(self)@, old(notices)@, final(notices)@, old(self)@.show_plan()),
    {
        let lines = plan::sync_plan(&self.tree, &self.queue, &self.bases);
        let ghost all = state::line_messages(text::texts(lines@));
        let ghost before = notice::messages(notices@);
        let mut i: usize = 0;
        assert(before + all.take(0) =~= before);
        while i < lines.len()
            invariant
                i <= lines@.len(),
                all == state::line_messages(text::texts(lines@)),
                notice::messages(notices@) == before + all.take(i as int),
            decreases lines@.len() - i,
        {
            let ghost so_far = notice::messages(notices@);
            tell(notices, Notice::line(lines[i].as_str()));
            assert(so_far.push(all[i as int]) =~= before + all.take(i + 1));
            i = i + 1;
        }
        assert(all.take(i as int) =~= all);
        self.stage = Stage::Finished;
    }

    fn preview(&mut self, k: usize, notices: &mut Vec<Notice>)
        requires
            k <= old(self)@.queue.len(),
        ensures
            takes(final(self)@, old(notices)@, final(notices)@, old(self)@.preview(k as int)),
    {
        let next = self.next_child(k);
        if next < self.queue.len() {
            self.stage = Stage::PreviewBase;
            self.at = next;
        } else {
            self.show_plan(notices);
        }
    }

    fn begin(&mut self, queue: Vec<String>, notices: &mut Vec<Notice>)
        ensures
            takes(
                final(self)@,
                old(notices)@,
                final(notices)@,
                old(self)@.begin(text::texts(queue@)),
            ),
    {
        self.queue = queue;
        if !self.opts.dry_run {
            self.check_status(0, notices);
        } else if self.opts.verbose {
            self.stage = Stage::PreviewPoints;
        } else {
            self.show_plan(notices);
        }
    }

    fn nothing_to_sync(&mut self, notices: &mut Vec<Notice>)
        ensures
            takes(final(self)@, old(notices)@, final(notices)@, old(self)@.nothing_to_sync()),
    {
        if self.opts.dry_run {
            self.stage = Stage::Finished;
        } else {
            self.stage = Stage::MakeDataDir;
        }
    }

    fn select(&mut self, current: Option<String>, notices: &mut Vec<Notice>)
        ensures
            takes(
                final(self)@,
                old(notices)@,
                final(notices)@,
                old(self)@.select(tree::optional_text(current)),
            ),
    {
        if self.opts.all {
            let queue = owned(&self.tree.sync_order());
            if queue.len() == 0 {
                tell(notices, Notice::all_up_to_date());
                self.nothing_to_sync(notices);
            } else {
                self.begin(queue, notices);
            }
        } else {
            match current {
                None => self.fail(failure::no_current_branch()),
                Some(branch) => {
                    let queue = owned(&self.tree.stack_containing(branch.as_str()));
                    if queue.len() == 0 {
                        tell(notices, Notice::no_stack(branch.as_str()));
                        self.nothing_to_sync(notices);
                    } else {
                        self.begin(queue, notices);
                    }
                },
            }
        }
    }

    /// The node of the branch at hand.
    fn node(&self) -> (node: &TreeNode)
        requires
            0 <= self@.at < self@.queue.len(),
            self@.is_node(self@.at),
        ensures
            node@ == self@.node(),
    {
        match self.tree.nodes.get(self.queue[self.at].as_str()) {
            Some(node) => node,
            None => unreached(),
        }
    }

    /// The parent of the branch at hand.
    fn parent(&self) -> (parent: &String)
        requires
            0 <= self@.at < self@.queue.len(),
            self@.is_child(self@.at),
        ensures
            parent@ == self@.parent(),
    {
        match &self.node().parent {
            Some(parent) => parent,
            None => unreached(),
        }
    }

    /// Where the branch at hand is cut off its old parent.
    fn base(&self) -> (base: String)
        requires
            0 <= self@.at < self@.queue.len(),
            self@.is_node(self@.at),
        ensures
            base@ == self@.base(),
    {
        match &self.node().original_parent {
            Some(original) => original.clone(),
            None => match self.points.get(self.queue[self.at].as_str()) {
                Some(point) => point.clone(),
                None => self.merge_base.clone(),
            },
        }
    }

    /// The branch at hand stands on the tip of its parent now.
    fn settle(&mut self)
        requires
            0 <= old(self)@.at < old(self)@.queue.len(),
        ensures
            final(self)@ == old(self)@.settle(),
    {
        let branch = self.queue[self.at].clone();
        let tip = self.tip.clone();
        self.points.insert(branch, tip);
        assert(self@.points =~= old(self)@.settle().points);
    }

    fn start_rebase(&mut self, notices: &mut Vec<Notice>)
        requires
            0 <= old(self)@.at < old(self)@.queue.len(),
            old(self)@.is_child(old(self)@.at),
        ensures
            takes(final(self)@, old(notices)@, final(notices)@, old(self)@.start_rebase()),
    {
        let branch = self.queue[self.at].as_str();
        let parent = self.parent().as_str();
        match &self.node().original_parent {
            Some(original) => tell(notices, Notice::moving(branch, parent, original.as_str())),
            None => tell(notices, Notice::rebasing(branch, parent)),
        }
        if self.opts.verbose {
            let line = plan::command_line(parent, self.base().as_str(), branch);
            tell(notices, Notice::line(line.as_str()));
        }
        self.stage = Stage::Rebase;
        assert(notice::messages(notices@) =~= notice::messages(old(notices)@) + old(
            self,
        )@.start_rebase().messages);
    }

    fn pruned(&mut self, notices: &mut Vec<Notice>)
        requires
            0 <= old(self)@.at < old(self)@.integrated.len(),
        ensures
            takes(final(self)@, old(notices)@, final(notices)@, old(self)@.pruned()),
    {
        // Positions below a length fit in a usize.
        let _ = self.integrated.len();
        assert(self@.integrated[self@.at].branch == self.integrated@[self.at as int].branch@);
        tell(notices, Notice::removed(self.integrated[self.at].branch.as_str()));
        self.prune_from(self.at + 1, notices);
    }

    fn branch_deleted(&mut self, notices: &mut Vec<Notice>)
        requires
            0 <= old(self)@.at < old(self)@.integrated.len(),
        ensures
            takes(final(self)@, old(notices)@, final(notices)@, old(self)@.branch_deleted()),
    {
        if self.has_upstream {
            self.stage = Stage::DeleteRemote;
        } else {
            self.pruned(notices);
        }
    }

    #[verifier::spinoff_prover]
    #[verifier::rlimit(60)]
    fn after_done(&mut self, notices: &mut Vec<Notice>)
        requires
            old(self)@.valid(),
            old(self)@.accepts(Event::Done),
        ensures
            takes(final(self)@, old(notices)@, final(notices)@, old(self)@.after_done()),
    {
        // Positions below a length fit in a usize.
        let _ = self.queue.len();
        let _ = self.pushable.len();
        match self.stage {
            Stage::Fetch => {
                tell(notices, Notice::fetched());
                self.stage = Stage::Survey;
                assert(notice::messages(notices@) =~= notice::messages(old(notices)@) + old(
                    self,
                )@.after_done().messages);
            },
            Stage::MakeDataDir => self.stage = Stage::WriteStack,
            Stage::WriteStack => self.stage = Stage::ReadPoints,
            Stage::Rebase => {
                tell(
                    notices,
                    Notice::rebased(self.queue[self.at].as_str(), self.parent().as_str()),
                );
                self.settle();
                self.rebased = self.rebased + 1;
                assert(self@ =~= (State {
                    rebased: old(self)@.rebased + 1,
                    ..old(self)@.settle()
                }));
                self.rebase(self.at + 1, notices);
            },
            Stage::SaveAfterConflict => self.fail(failure::stopped_at_conflict()),
            Stage::Push => {
                tell(notices, Notice::pushed(self.pushable[self.at].as_str()));
                self.push_from(self.at + 1, notices);
            },
            Stage::RemoveWorktree => self.stage = Stage::DeleteBranch,
            Stage::DeleteBranch => self.branch_deleted(notices),
            Stage::DeleteRemote => self.pruned(notices),
            _ => self.stage = Stage::Finished,
        }
    }

    fn after_prune_failure(&mut self, failure: Failure, notices: &mut Vec<Notice>)
        requires
            0 <= old(self)@.at < old(self)@.integrated.len(),
            match old(self)@.stage {
                Stage::RemoveWorktree | Stage::DeleteBranch | Stage::DeleteRemote => true,
                _ => false,
            },
        ensures
            takes(final(self)@, old(notices)@, final(notices)@, old(self)@.after_failure(failure@)),
    {
        // Positions below a length fit in a usize.
        let _ = self.integrated.len();
        let site = &self.integrated[self.at];
        assert(self@.integrated[self@.at] == site@);
        match self.stage {
            Stage::RemoveWorktree => {
                tell(
                    notices,
                    Notice::remove_failed(site.branch.as_str(), failure.message.as_str()),
                );
                tell(notices, Notice::remove_hint(&site.path));
                self.prune_from(self.at + 1, notices);
            },
            Stage::DeleteBranch => {
                tell(
                    notices,
                    Notice::delete_failed(site.branch.as_str(), failure.message.as_str()),
                );
                self.branch_deleted(notices);
            },
            _ => {
                tell(
                    notices,
                    Notice::remote_delete_failed(site.branch.as_str(), failure.message.as_str()),
                );
                self.pruned(notices);
            },
        }
    }

    #[verifier::spinoff_prover]
    #[verifier::rlimit(60)]
    fn after_failure(&mut self, failure: Failure, notices: &mut Vec<Notice>)
        requires
            old(self)@.valid(),
            !old(self)@.stage.ends(),
        ensures
            takes(final(self)@, old(notices)@, final(notices)@, old(self)@.after_failure(failure@)),
    {
        // Positions below a length fit in a usize.
        let _ = self.pushable.len();
        match self.stage {
            Stage::Fetch => self.fail(failure.context("git fetch failed".to_owned())),
            Stage::MakeDataDir => self.fail(
                failure.context("Failed to create .git/wt directory".to_owned()),
            ),
            Stage::WriteStack => self.fail(
                failure.context("Failed to write stack file".to_owned()),
            ),
            Stage::SaveAfterConflict | Stage::SavePoints => self.fail(
                failure.context("Failed to write fork-points file".to_owned()),
            ),
            Stage::Rebase => {
                self.stage = Stage::AskConflict;
                self.failure = failure;
            },
            Stage::Push => {
                tell(
                    notices,
                    Notice::push_failed(
                        self.pushable[self.at].as_str(),
                        failure.message.as_str(),
                    ),
                );
                self.push_from(self.at + 1, notices);
            },
            Stage::RemoveWorktree | Stage::DeleteBranch | Stage::DeleteRemote => {
                self.after_prune_failure(failure, notices);
            },
            _ => self.fail(failure),
        }
    }

    #[verifier::spinoff_prover]
    #[verifier::rlimit(60)]
    fn after_name(&mut self, name: Option<String>, notices: &mut Vec<Notice>)
        requires
            old(self)@.valid(),
            old(self)@.accepts(Event::Name(name)),
        ensures
            takes(
                final(self)@,
                old(notices)@,
                final(notices)@,
                old(self)@.after_name(tree::optional_text(name)),
            ),
    {
        // Positions below a length fit in a usize.
        let _ = self.queue.len();
        match self.stage {
            Stage::Locate => self.select(name, notices),
            Stage::PreviewBase => match name {
                Some(merge_base) => {
                    self.stage = Stage::PreviewTip;
                    self.merge_base = merge_base;
                },
                None => self.preview(self.at + 1, notices),
            },
            Stage::FindBase => match name {
                Some(merge_base) => {
                    self.stage = Stage::FindTip;
                    self.merge_base = merge_base;
                },
                None => self.rebase(self.at + 1, notices),
            },
            Stage::AskRemote => {
                self.remote = name_or_origin(name);
                tell(
                    notices,
                    Notice::pushing(self.pushable[self.at].as_str(), self.remote.as_str()),
                );
                self.stage = Stage::Push;
                assert(notice::messages(notices@) =~= notice::messages(old(notices)@) + old(
                    self,
                )@.after_name(tree::optional_text(name)).messages);
            },
            _ => {
                self.remote = name_or_origin(name);
                self.stage = Stage::RemoveWorktree;
            },
        }
    }

    #[verifier::spinoff_prover]
    #[verifier::rlimit(60)]
    fn after_output(&mut self, output: String, notices: &mut Vec<Notice>)
        requires
            old(self)@.valid(),
            old(self)@.accepts(Event::Output(output)),
        ensures
            takes(final(self)@, old(notices)@, final(notices)@, old(self)@.after_output(output@)),
    {
        // Positions below a length fit in a usize.
        let _ = self.queue.len();
        let trimmed = text::trimmed(output.as_str());
        match self.stage {
            Stage::PreviewTip => {
                self.tip = trimmed;
                if self.bases.contains_key(self.parent().as_str()) || !text::same(
                    self.merge_base.as_str(),
                    self.tip.as_str(),
                ) {
                    let ghost told = self@;
                    let branch = self.queue[self.at].clone();
                    let base = self.base();
                    self.bases.insert(branch, base);
                    assert(self@.bases =~= told.bases.insert(told.branch(), told.base()));
                }
                self.preview(self.at + 1, notices);
            },
            Stage::CheckStatus => {
                if trimmed.as_str().unicode_len() != 0 {
                    let ghost before = self@.dirty;
                    self.dirty.push(self.queue[self.at].clone());
                    assert(self@.dirty =~= before.push(old(self)@.branch()));
                }
                self.check_status(self.at + 1, notices);
            },
            _ => {
                self.tip = trimmed;
                if text::same(self.merge_base.as_str(), self.tip.as_str()) {
                    tell(
                        notices,
                        Notice::up_to_date(self.queue[self.at].as_str(), self.parent().as_str()),
                    );
                    self.settle();
                    self.skipped = self.skipped + 1;
                    self.rebase(self.at + 1, notices);
                } else {
                    self.start_rebase(notices);
                }
            },
        }
    }

    #[verifier::spinoff_prover]
    #[verifier::rlimit(60)]
    fn after_flag(&mut self, yes: bool, notices: &mut Vec<Notice>)
        requires
            old(self)@.valid(),
            old(self)@.accepts(Event::Flag(yes)),
        ensures
            takes(final(self)@, old(notices)@, final(notices)@, old(self)@.after_flag(yes)),
    {
        // Positions below a length fit in a usize.
        let _ = self.queue.len();
        match self.stage {
            Stage::CheckRebase => {
                if yes {
                    let failure = failure::rebasing_already(self.queue[self.at].as_str());
                    self.fail(failure);
                } else {
                    self.check_rebase(self.at + 1, notices);
                }
            },
            Stage::AskConflict => {
                if yes {
                    tell(
                        notices,
                        Notice::conflict(self.queue[self.at].as_str(), self.parent().as_str()),
                    );
                    tell(notices, Notice::conflict_hint(&self.node().path));
                    self.stage = Stage::SaveAfterConflict;
                    assert(notice::messages(notices@) =~= notice::messages(old(notices)@) + old(
                        self,
                    )@.after_flag(yes).messages);
                } else {
                    let message = failure::rebase_failed_message(
                        self.queue[self.at].as_str(),
                        self.parent().as_str(),
                    );
                    let failure = self.failure.copy().context(message);
                    self.fail(failure);
                }
            },
            Stage::AskUpstream => {
                if yes {
                    let ghost before = self@.pushable;
                    self.pushable.push(self.queue[self.at].clone());
                    assert(self@.pushable =~= before.push(old(self)@.branch()));
                }
                self.ask_upstream(self.at + 1, notices);
            },
            _ => {
                self.has_upstream = yes;
                self.stage = Stage::PruneRemote;
            },
        }
    }

    fn after_contents(&mut self, content: Option<String>, notices: &mut Vec<Notice>)
        requires
            old(self)@.valid(),
            old(self)@.accepts(Event::Contents(content)),
        ensures
            takes(
                final(self)@,
                old(notices)@,
                final(notices)@,
                old(self)@.after_points(state::points_in(content)),
            ),
    {
        self.points = match content {
            Some(found) => fork_points::parse_fork_points(found.as_str()),
            None => BranchMap::new(),
        };
        assert(self@.points =~= state::points_in(content));
        match self.stage {
            Stage::PreviewPoints => self.preview(0, notices),
            _ => self.rebase(0, notices),
        }
    }

    #[verifier::spinoff_prover]
    #[verifier::rlimit(60)]
    fn take(&mut self, event: Event, notices: &mut Vec<Notice>)
        requires
            old(self)@.valid(),
            old(self)@.accepts(event),
        ensures
            takes(final(self)@, old(notices)@, final(notices)@, old(self)@.after(event)),
    {
        match event {
            Event::Done => self.after_done(notices),
            Event::Failed(failure) => self.after_failure(failure, notices),
            Event::Surveyed { tree, integrated } => {
                self.integrated = list_integrated(&integrated);
                self.tree = tree;
                self.stage = Stage::Locate;
            },
            Event::Name(name) => self.after_name(name, notices),
            Event::Output(output) => self.after_output(output, notices),
            Event::Flag(yes) => self.after_flag(yes, notices),
            Event::Contents(content) => self.after_contents(content, notices),
        }
    }

    /// Goes on after what came of the action, and says what is told on the way.
    #[verifier::spinoff_prover]
    #[verifier::rlimit(60)]
    pub fn step(&mut self, event: Event) -> (notices: Vec<Notice>)
        requires
            old(self)@.valid(),
            old(self)@.accepts(event),
        ensures
            final(self)@ == old(self)@.after(event).state,
            final(self)@.valid(),
            notice::messages(notices@) == old(self)@.after(event).messages,
    {
        let mut notices: Vec<Notice> = Vec::new();
        let ghost before = notices@;
        self.take(event, &mut notices);
        proof {
            state::law_stays_valid(old(self)@, event);
            assert(notice::messages(before) =~= seq![]);
            assert(notice::messages(notices@) =~= old(self)@.after(event).messages);
        }
        notices
    }

    /// What is to be done next.
    pub fn action(&self) -> (action: Action)
        requires
            self@.valid(),
        ensures
            self@.calls_for(action),
    {
        match self.stage {
            Stage::Fetch => Action::Fetch,
            Stage::Survey => Action::Survey,
            Stage::Locate => Action::CurrentBranch,
            Stage::PreviewPoints | Stage::ReadPoints => Action::ReadForkPoints,
            Stage::PreviewBase | Stage::FindBase => Action::MergeBase {
                parent: self.parent().clone(),
                branch: self.queue[self.at].clone(),
            },
            Stage::PreviewTip | Stage::FindTip => Action::Tip { branch: self.parent().clone() },
            Stage::CheckStatus => Action::Status { path: self.node().path.clone() },
            Stage::CheckRebase | Stage::AskConflict => Action::RebaseState {
                path: self.node().path.clone(),
            },
            Stage::MakeDataDir => Action::MakeDataDir,
            Stage::WriteStack => Action::WriteStackFile {
                content: stack_file::format_stack_file(&self.tree),
            },
            Stage::Rebase => Action::Rebase {
                path: self.node().path.clone(),
                parent: self.parent().clone(),
                base: self.base(),
                branch: self.queue[self.at].clone(),
            },
            Stage::SaveAfterConflict | Stage::SavePoints => Action::WriteForkPoints {
                content: fork_points::format_fork_points(&self.points),
            },
            Stage::AskUpstream => Action::Upstream { branch: self.queue[self.at].clone() },
            Stage::AskRemote => Action::PushRemote { branch: self.pushable[self.at].clone() },
            Stage::Push => Action::Push {
                remote: self.remote.clone(),
                branch: self.pushable[self.at].clone(),
            },
            Stage::PruneUpstream => Action::Upstream {
                branch: self.integrated[self.at].branch.clone(),
            },
            Stage::PruneRemote => Action::PushRemote {
                branch: self.integrated[self.at].branch.clone(),
            },
            Stage::RemoveWorktree => Action::RemoveWorktree {
                path: self.integrated[self.at].path.clone(),
                force: self.opts.force,
            },
            Stage::DeleteBranch => Action::DeleteBranch {
                branch: self.integrated[self.at].branch.clone(),
            },
            Stage::DeleteRemote => Action::DeleteRemoteBranch {
                remote: self.remote.clone(),
                branch: self.integrated[self.at].branch.clone(),
            },
            Stage::Finished => Action::Finish,
            Stage::Failed => Action::Fail { failure: self.failure.copy() },
        }
    }
}

fn name_or_origin(name: Option<String>) -> (remote: String)
    ensures
        remote@ == state::remote_or_origin(tree::optional_text(name)),
{
    match name {
        Some(remote) => remote,
        None => "origin".to_owned(),
    }
}

} // verus!
